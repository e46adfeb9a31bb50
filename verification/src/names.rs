//! Line names, station names and the names under which riders know a station.
use vstd::prelude::*;

use crate::text::{characters, is_alphanumeric, same_text, to_upper, trim, uppercase};

verus! {

/// A line name in its common form: trimmed and in upper case.
pub open spec fn line_name(value: Seq<char>) -> Seq<char> {
    crate::text::uppercased(crate::text::trimmed(value))
}

/// The words of a text: its longest runs of letters and digits.
pub open spec fn words_of(text: Seq<char>) -> Seq<Seq<char>>
    decreases text.len(),
{
    if text.len() == 0 {
        Seq::empty()
    } else {
        let before = words_of(text.drop_last());
        if !crate::text::alphanumeric(text.last()) {
            before
        } else if text.len() > 1 && crate::text::alphanumeric(text[text.len() - 2]) {
            before.drop_last().push(before.last().push(text.last()))
        } else {
            before.push(seq![text.last()])
        }
    }
}

/// Whether a word only says that the name is one of a station.
pub open spec fn station_word(word: Seq<char>) -> bool {
    word == "STATION"@ || word == "STA"@
}

/// The words without the ones at the end that only say "station".
pub open spec fn without_station_words(words: Seq<Seq<char>>) -> Seq<Seq<char>>
    decreases words.len(),
{
    if words.len() > 0 && station_word(words.last()) {
        without_station_words(words.drop_last())
    } else {
        words
    }
}

/// The full form of an abbreviated word.
pub open spec fn full_word(word: Seq<char>) -> Seq<char> {
    if word == "FT"@ {
        "FORT"@
    } else if word == "CTR"@ {
        "CENTER"@
    } else {
        word
    }
}

/// The words with one space between neighbours.
pub open spec fn joined(words: Seq<Seq<char>>) -> Seq<char>
    decreases words.len(),
{
    if words.len() == 0 {
        Seq::empty()
    } else if words.len() == 1 {
        words[0]
    } else {
        joined(words.drop_last()).push(' ') + words.last()
    }
}

/// A station name in its common form: the words of the name in upper case, without trailing
/// words that only say "station", abbreviations written out, one space between words.
pub open spec fn station_name(value: Seq<char>) -> Seq<char> {
    joined(
        without_station_words(words_of(crate::text::uppercased(value))).map_values(
            |word: Seq<char>| full_word(word),
        ),
    )
}

/// The texts that strings hold.
pub open spec fn texts(strings: Seq<String>) -> Seq<Seq<char>> {
    strings.map_values(|string: String| string@)
}

/// A line name in its common form.
pub fn normalize_line(value: &str) -> (result: String)
    ensures
        result@ == line_name(value@),
{
    uppercase(trim(value).as_str())
}

/// Splits a text into its words, in upper case.
fn split_words(value: &str) -> (words: Vec<String>)
    ensures
        texts(words@) == words_of(crate::text::uppercased(value@)),
{
    let chars = characters(value);
    let ghost text = crate::text::uppercased(chars@);
    let mut words: Vec<String> = Vec::new();
    let mut current = String::new();
    for i in 0..chars.len()
        invariant
            text == crate::text::uppercased(chars@),
            current@.len() > 0 <==> (i > 0 && crate::text::alphanumeric(text[i - 1])),
            words_of(text.take(i as int)) == if current@.len() > 0 {
                texts(words@).push(current@)
            } else {
                texts(words@)
            },
    {
        let ch = to_upper(chars[i]);
        let ghost before = text.take(i as int);
        let ghost after = text.take(i + 1);
        proof {
            assert(after.drop_last() =~= before);
            assert(after.last() == ch);
            if i > 0 {
                assert(after[after.len() - 2] == text[i - 1]);
            }
        }
        if is_alphanumeric(ch) {
            let ghost old_current = current@;
            current.push(ch);
            proof {
                if old_current.len() > 0 {
                    assert(texts(words@).push(old_current).drop_last() =~= texts(words@));
                } else {
                    assert(current@ =~= seq![ch]);
                }
            }
        } else if !current.as_str().is_empty() {
            let ghost old_words = words@;
            let ghost word = current;
            words.push(current);
            current = String::new();
            proof {
                assert(texts(words@) =~= texts(old_words).push(word@));
            }
        }
    }
    proof {
        assert(text.take(chars@.len() as int) =~= text);
    }
    if !current.as_str().is_empty() {
        let ghost old_words = words@;
        let ghost word = current;
        words.push(current);
        proof {
            assert(texts(words@) =~= texts(old_words).push(word@));
        }
    }
    words
}

/// A station name in its common form.
pub fn normalize_station_name(value: &str) -> (result: String)
    ensures
        result@ == station_name(value@),
{
    let words = split_words(value);
    let ghost all = texts(words@);
    let mut count: usize = words.len();
    proof {
        assert(all.take(count as int) =~= all);
    }
    while count > 0 && (same_text(words[count - 1].as_str(), "STATION") || same_text(
        words[count - 1].as_str(),
        "STA",
    ))
        invariant
            count <= words@.len(),
            all == texts(words@),
            without_station_words(all) == without_station_words(all.take(count as int)),
        decreases count,
    {
        proof {
            assert(all.take(count as int).drop_last() =~= all.take(count - 1));
        }
        count -= 1;
    }
    let ghost kept = all.take(count as int);
    let ghost full = kept.map_values(|word: Seq<char>| full_word(word));
    proof {
        assert(without_station_words(all) == kept);
    }
    let mut result = String::new();
    for i in 0..count
        invariant
            count <= words@.len(),
            all == texts(words@),
            kept == all.take(count as int),
            full == kept.map_values(|word: Seq<char>| full_word(word)),
            result@ == joined(full.take(i as int)),
    {
        if i > 0 {
            result.push(' ');
        }
        let word = words[i].as_str();
        let shown: &str = if same_text(word, "FT") {
            "FORT"
        } else if same_text(word, "CTR") {
            "CENTER"
        } else {
            word
        };
        result.append(shown);
        proof {
            assert(full[i as int] == shown@);
            assert(full.take(i + 1).drop_last() =~= full.take(i as int));
            assert(full.take(i + 1).last() == shown@);
            if i == 0 {
                assert(result@ =~= shown@);
            }
        }
    }
    proof {
        assert(full.take(count as int) =~= full);
    }
    result
}

/// An upper-case letter or a digit.
pub open spec fn plain_character(ch: char) -> bool {
    crate::text::digit(ch) || 'A' <= ch <= 'Z'
}

/// A word in its common form: upper-case letters and digits.
pub open spec fn plain_word(word: Seq<char>) -> bool {
    word.len() > 0 && forall|i: int| 0 <= i < word.len() ==> plain_character(#[trigger] word[i])
}

/// Nothing but upper-case letters, digits and spaces.
pub open spec fn plain_text(text: Seq<char>) -> bool {
    forall|i: int|
        0 <= i < text.len() ==> (#[trigger] text[i]) == ' ' || plain_character(text[i])
}

/// Every word is in its common form.
spec fn plain_words(words: Seq<Seq<char>>) -> bool {
    forall|i: int| 0 <= i < words.len() ==> plain_word(#[trigger] words[i])
}

proof fn lemma_words_are_plain(text: Seq<char>)
    requires
        forall|i: int|
            0 <= i < text.len() && crate::text::alphanumeric(#[trigger] text[i])
                ==> plain_character(text[i]),
    ensures
        plain_words(words_of(text)),
        text.len() > 0 && crate::text::alphanumeric(text.last()) ==> words_of(text).len() > 0,
    decreases text.len(),
{
    if text.len() > 0 {
        let shorter = text.drop_last();
        assert forall|i: int|
            0 <= i < shorter.len() && crate::text::alphanumeric(
                #[trigger] shorter[i],
            ) implies plain_character(shorter[i]) by {
            assert(shorter[i] == text[i]);
        }
        lemma_words_are_plain(shorter);
        let before = words_of(shorter);
        if crate::text::alphanumeric(text.last()) {
            assert(plain_character(text[text.len() - 1]));
            if text.len() > 1 && crate::text::alphanumeric(text[text.len() - 2]) {
                assert(shorter.last() == text[text.len() - 2]);
                assert(plain_word(before[before.len() - 1]));
                assert(plain_word(before.last().push(text.last())));
            } else {
                assert(plain_word(seq![text.last()]));
            }
        }
    }
}

proof fn lemma_kept_words(words: Seq<Seq<char>>)
    ensures
        without_station_words(words).len() <= words.len(),
        without_station_words(words) == words.take(without_station_words(words).len() as int),
        without_station_words(words).len() > 0 ==> !station_word(
            without_station_words(words).last(),
        ),
    decreases words.len(),
{
    if words.len() > 0 && station_word(words.last()) {
        lemma_kept_words(words.drop_last());
        let count = without_station_words(words).len() as int;
        assert(words.drop_last().take(count) =~= words.take(count));
    } else {
        assert(words.take(words.len() as int) =~= words);
    }
}

proof fn lemma_full_word(word: Seq<char>)
    requires
        plain_word(word),
    ensures
        plain_word(full_word(word)),
        full_word(full_word(word)) == full_word(word),
        !station_word(word) ==> !station_word(full_word(word)),
{
    reveal_strlit("FT");
    reveal_strlit("FORT");
    reveal_strlit("CTR");
    reveal_strlit("CENTER");
    reveal_strlit("STATION");
    reveal_strlit("STA");
    assert("FORT"@.len() == 4 && "FT"@.len() == 2 && "CTR"@.len() == 3 && "CENTER"@.len() == 6);
    assert("STATION"@.len() == 7 && "STA"@.len() == 3);
}

proof fn lemma_joined_is_plain(words: Seq<Seq<char>>)
    requires
        plain_words(words),
    ensures
        plain_text(joined(words)),
    decreases words.len(),
{
    if words.len() == 1 {
        assert(plain_word(words[0]));
    } else if words.len() > 1 {
        assert(plain_words(words.drop_last())) by {
            assert forall|i: int| 0 <= i < words.len() - 1 implies plain_word(
                #[trigger] words.drop_last()[i],
            ) by {
                assert(words.drop_last()[i] == words[i]);
            }
        }
        lemma_joined_is_plain(words.drop_last());
        let start = joined(words.drop_last()).push(' ');
        assert(plain_word(words[words.len() - 1]));
        assert forall|i: int| 0 <= i < joined(words).len() implies (#[trigger] joined(words)[i])
            == ' ' || plain_character(joined(words)[i]) by {
            if i < start.len() - 1 {
                assert(joined(words)[i] == joined(words.drop_last())[i]);
            } else if i >= start.len() {
                assert(joined(words)[i] == words.last()[i - start.len()]);
            }
        }
    }
}

/// The words that make up a station name are in their common form, written out, and do not end
/// with one that only says "station".
proof fn lemma_name_words(value: Seq<char>)
    ensures
        ({
            let words = without_station_words(
                words_of(crate::text::uppercased(value)),
            ).map_values(|word: Seq<char>| full_word(word));
            &&& plain_words(words)
            &&& words.len() > 0 ==> !station_word(words.last())
            &&& forall|i: int|
                0 <= i < words.len() ==> full_word(#[trigger] words[i]) == words[i]
        }),
{
    let text = crate::text::uppercased(value);
    assert forall|i: int|
        0 <= i < text.len() && crate::text::alphanumeric(
            #[trigger] text[i],
        ) implies plain_character(text[i]) by {
        assert(text[i] == crate::text::upper(value[i]));
    }
    lemma_words_are_plain(text);
    lemma_kept_words(words_of(text));
    let kept = without_station_words(words_of(text));
    let words = kept.map_values(|word: Seq<char>| full_word(word));
    assert forall|i: int| 0 <= i < words.len() implies plain_word(#[trigger] words[i])
        && full_word(words[i]) == words[i] by {
        assert(kept[i] == words_of(text)[i]);
        lemma_full_word(kept[i]);
    }
    if words.len() > 0 {
        assert(kept[kept.len() - 1] == words_of(text)[kept.len() - 1]);
        lemma_full_word(kept.last());
    }
}

/// A station name in its common form holds nothing but upper-case letters, digits and spaces.
pub proof fn station_name_is_plain(value: Seq<char>)
    ensures
        plain_text(station_name(value)),
{
    lemma_name_words(value);
    lemma_joined_is_plain(
        without_station_words(words_of(crate::text::uppercased(value))).map_values(
            |word: Seq<char>| full_word(word),
        ),
    );
}

/// A plain text has as many bytes as characters.
pub proof fn plain_text_bytes(text: Seq<char>)
    requires
        plain_text(text),
    ensures
        vstd::utf8::encode_utf8(text).len() == text.len(),
{
    assert(vstd::utf8::is_ascii_chars(text));
    vstd::utf8::is_ascii_chars_encode_utf8(text);
}

/// A word that follows something other than a letter or digit is one more word.
proof fn lemma_word_appended(text: Seq<char>, word: Seq<char>)
    requires
        plain_word(word),
        text.len() > 0 ==> !crate::text::alphanumeric(text.last()),
    ensures
        words_of(text + word) == words_of(text).push(word),
    decreases word.len(),
{
    let whole = text + word;
    let shorter = word.drop_last();
    assert(whole.drop_last() =~= text + shorter);
    assert(whole.last() == word[word.len() - 1]);
    assert(plain_character(word[word.len() - 1]));
    if word.len() == 1 {
        assert(text + shorter =~= text);
        assert(word =~= seq![word.last()]);
        if text.len() > 0 {
            assert(whole[whole.len() - 2] == text.last());
        }
    } else {
        assert forall|i: int| 0 <= i < shorter.len() implies plain_character(
            #[trigger] shorter[i],
        ) by {
            assert(shorter[i] == word[i]);
        }
        lemma_word_appended(text, shorter);
        assert(whole[whole.len() - 2] == word[word.len() - 2]);
        assert(plain_character(word[word.len() - 2]));
        assert(words_of(text).push(shorter).drop_last() =~= words_of(text));
        assert(shorter.push(word.last()) =~= word);
    }
}

proof fn lemma_words_of_joined(words: Seq<Seq<char>>)
    requires
        plain_words(words),
    ensures
        words_of(joined(words)) == words,
    decreases words.len(),
{
    if words.len() == 0 {
        assert(words_of(joined(words)) =~= words);
    } else if words.len() == 1 {
        assert(plain_word(words[0]));
        lemma_word_appended(Seq::empty(), words[0]);
        assert(Seq::<char>::empty() + words[0] =~= words[0]);
        assert(words_of(Seq::<char>::empty()).push(words[0]) =~= words);
    } else {
        assert forall|i: int| 0 <= i < words.len() - 1 implies plain_word(
            #[trigger] words.drop_last()[i],
        ) by {
            assert(words.drop_last()[i] == words[i]);
        }
        lemma_words_of_joined(words.drop_last());
        let start = joined(words.drop_last()).push(' ');
        assert(start.drop_last() =~= joined(words.drop_last()));
        assert(words_of(start) == words.drop_last());
        assert(plain_word(words[words.len() - 1]));
        lemma_word_appended(start, words.last());
        assert(words.drop_last().push(words.last()) =~= words);
    }
}

/// Taking the common form of a station name twice changes nothing more.
pub proof fn station_name_idempotent(value: Seq<char>)
    ensures
        station_name(station_name(value)) == station_name(value),
{
    let words = without_station_words(words_of(crate::text::uppercased(value))).map_values(
        |word: Seq<char>| full_word(word),
    );
    let name = joined(words);
    lemma_name_words(value);
    station_name_is_plain(value);
    assert(crate::text::uppercased(name) =~= name);
    lemma_words_of_joined(words);
    assert(words.map_values(|word: Seq<char>| full_word(word)) =~= words);
}

/// Taking the common form of a line name twice changes nothing more.
pub proof fn line_name_idempotent(value: Seq<char>)
    ensures
        line_name(line_name(value)) == line_name(value),
{
    crate::text::trimmed_uppercased(crate::text::trimmed(value));
    crate::text::trimmed_idempotent(value);
    assert(crate::text::uppercased(line_name(value)) =~= line_name(value));
}

/// Gaps with words between them, one after the other: a gap, a word, a gap and so on.
pub open spec fn spelled(words: Seq<Seq<char>>, gaps: Seq<Seq<char>>) -> Seq<char>
    decreases words.len(),
{
    if words.len() == 0 {
        gaps[0]
    } else {
        spelled(words.drop_last(), gaps.drop_last()) + words.last() + gaps.last()
    }
}

/// Whether a gap holds no letter and no digit.
pub open spec fn is_gap(gap: Seq<char>) -> bool {
    forall|i: int| 0 <= i < gap.len() ==> !crate::text::alphanumeric(#[trigger] gap[i])
}

/// Whether words in upper case and gaps alternate, with something in each gap between two
/// words.
pub open spec fn alternate(words: Seq<Seq<char>>, gaps: Seq<Seq<char>>) -> bool {
    &&& gaps.len() == words.len() + 1
    &&& forall|i: int| 0 <= i < words.len() ==> plain_word(#[trigger] words[i])
    &&& forall|i: int| 0 <= i < gaps.len() ==> is_gap(#[trigger] gaps[i])
    &&& forall|i: int| 0 < i < words.len() ==> (#[trigger] gaps[i]).len() > 0
}

/// The words with a space between neighbours.
pub open spec fn spaced(words: Seq<Seq<char>>) -> Seq<char>
    decreases words.len(),
{
    if words.len() <= 1 {
        if words.len() == 0 {
            Seq::empty()
        } else {
            words[0]
        }
    } else {
        spaced(words.drop_last()) + seq![' '] + words.last()
    }
}

/// A word as it stands in a station name: the two abbreviations of the feed are written out.
pub open spec fn name_word(word: Seq<char>) -> Seq<char> {
    if word == "FT"@ {
        "FORT"@
    } else if word == "CTR"@ {
        "CENTER"@
    } else {
        word
    }
}

/// Whether `name` is made of the first `kept` of the words: all that follow say "station" and
/// the last of these does not.
pub open spec fn named_by(name: Seq<char>, words: Seq<Seq<char>>, kept: int) -> bool {
    &&& 0 <= kept <= words.len()
    &&& forall|i: int|
        kept <= i < words.len() ==> #[trigger] words[i] == "STATION"@ || words[i] == "STA"@
    &&& kept > 0 ==> words[kept - 1] != "STATION"@ && words[kept - 1] != "STA"@
    &&& name == spaced(Seq::new(kept as nat, |i: int| name_word(words[i])))
}

proof fn lemma_gap_appended(text: Seq<char>, gap: Seq<char>)
    requires
        is_gap(gap),
    ensures
        words_of(text + gap) == words_of(text),
    decreases gap.len(),
{
    if gap.len() == 0 {
        assert(text + gap =~= text);
    } else {
        let shorter = gap.drop_last();
        assert forall|i: int| 0 <= i < shorter.len() implies !crate::text::alphanumeric(
            #[trigger] shorter[i],
        ) by {
            assert(shorter[i] == gap[i]);
        }
        lemma_gap_appended(text, shorter);
        assert((text + gap).drop_last() =~= text + shorter);
        assert((text + gap).last() == gap[gap.len() - 1]);
    }
}

proof fn lemma_shorter_alternate(words: Seq<Seq<char>>, gaps: Seq<Seq<char>>)
    requires
        alternate(words, gaps),
        words.len() > 0,
    ensures
        alternate(words.drop_last(), gaps.drop_last()),
        plain_word(words.last()),
        is_gap(gaps.last()),
{
    let fewer = words.drop_last();
    let between = gaps.drop_last();
    assert(plain_word(words[words.len() - 1]));
    assert(is_gap(gaps[gaps.len() - 1]));
    assert forall|i: int| 0 <= i < fewer.len() implies plain_word(#[trigger] fewer[i]) by {
        assert(fewer[i] == words[i]);
    }
    assert forall|i: int| 0 <= i < between.len() implies is_gap(#[trigger] between[i]) by {
        assert(between[i] == gaps[i]);
    }
    assert forall|i: int| 0 < i < fewer.len() implies (#[trigger] between[i]).len() > 0 by {
        assert(between[i] == gaps[i]);
    }
}

/// The words of gaps and words are those words.
proof fn lemma_spelled_words(words: Seq<Seq<char>>, gaps: Seq<Seq<char>>)
    requires
        alternate(words, gaps),
    ensures
        words_of(spelled(words, gaps)) == words,
    decreases words.len(),
{
    if words.len() == 0 {
        assert(is_gap(gaps[0]));
        lemma_gap_appended(Seq::empty(), gaps[0]);
        assert(Seq::<char>::empty() + gaps[0] =~= gaps[0]);
        assert(words_of(Seq::<char>::empty()) =~= words);
    } else {
        let fewer = words.drop_last();
        let between = gaps.drop_last();
        lemma_shorter_alternate(words, gaps);
        lemma_spelled_words(fewer, between);
        let start = spelled(fewer, between);
        if start.len() > 0 {
            let gap = between.last();
            assert(gap == gaps[gaps.len() - 2]);
            assert(is_gap(gaps[gaps.len() - 2]));
            if fewer.len() > 0 {
                assert(gaps[gaps.len() - 2].len() > 0);
            }
            assert(start.last() == gap[gap.len() - 1]);
        }
        lemma_word_appended(start, words.last());
        lemma_gap_appended(start + words.last(), gaps.last());
        assert(fewer.push(words.last()) =~= words);
    }
}

proof fn lemma_spaced(words: Seq<Seq<char>>)
    ensures
        joined(words) == spaced(words),
    decreases words.len(),
{
    if words.len() > 1 {
        lemma_spaced(words.drop_last());
        assert(joined(words) =~= spaced(words));
    }
}

proof fn lemma_station_words_go(words: Seq<Seq<char>>) -> (kept: int)
    ensures
        0 <= kept <= words.len(),
        without_station_words(words) == words.take(kept),
        forall|i: int| kept <= i < words.len() ==> station_word(#[trigger] words[i]),
        kept > 0 ==> !station_word(words[kept - 1]),
    decreases words.len(),
{
    if words.len() > 0 && station_word(words.last()) {
        let fewer = words.drop_last();
        let kept = lemma_station_words_go(fewer);
        assert(fewer.take(kept) =~= words.take(kept));
        assert forall|i: int| kept <= i < words.len() implies station_word(#[trigger] words[i]) by {
            if i < fewer.len() {
                assert(fewer[i] == words[i]);
            }
        }
        kept
    } else {
        assert(words.take(words.len() as int) =~= words);
        words.len() as int
    }
}

/// The common form of a station name depends on its words alone, whatever stands between them
/// and in whichever case they are: it is made of them in their order and upper case, one space
/// apart, with "FT" and "CTR" written out, and without those at the end that only say "station".
pub proof fn station_name_is_made_of_words(
    value: Seq<char>,
    words: Seq<Seq<char>>,
    gaps: Seq<Seq<char>>,
)
    requires
        alternate(words, gaps),
        crate::text::uppercased(value) == spelled(words, gaps),
    ensures
        exists|kept: int| #[trigger] named_by(station_name(value), words, kept),
{
    lemma_spelled_words(words, gaps);
    let kept = lemma_station_words_go(words);
    let full = words.take(kept).map_values(|word: Seq<char>| full_word(word));
    lemma_spaced(full);
    assert(full =~= Seq::new(kept as nat, |i: int| name_word(words[i])));
    assert forall|i: int| kept <= i < words.len() implies #[trigger] words[i] == "STATION"@
        || words[i] == "STA"@ by {
        assert(station_word(words[i]));
    }
    assert(named_by(station_name(value), words, kept));
}

/// Every text in upper case is made of words and gaps.
pub proof fn texts_are_made_of_words(value: Seq<char>)
    ensures
        exists|words: Seq<Seq<char>>, gaps: Seq<Seq<char>>| #[trigger]
            alternate(words, gaps) && crate::text::uppercased(value) == spelled(words, gaps),
{
    let text = crate::text::uppercased(value);
    assert forall|i: int|
        0 <= i < text.len() && crate::text::alphanumeric(
            #[trigger] text[i],
        ) implies plain_character(text[i]) by {
        assert(text[i] == crate::text::upper(value[i]));
    }
    let (words, gaps) = lemma_text_spelled(text);
    assert(alternate(words, gaps));
}

proof fn lemma_text_spelled(text: Seq<char>) -> (parts: (Seq<Seq<char>>, Seq<Seq<char>>))
    requires
        forall|i: int|
            0 <= i < text.len() && crate::text::alphanumeric(
                #[trigger] text[i],
            ) ==> plain_character(text[i]),
    ensures
        alternate(parts.0, parts.1),
        text == spelled(parts.0, parts.1),
    decreases text.len(),
{
    if text.len() == 0 {
        let gaps = seq![Seq::<char>::empty()];
        assert(text =~= gaps[0]);
        (Seq::empty(), gaps)
    } else {
        let shorter = text.drop_last();
        let ch = text.last();
        assert(text[text.len() - 1] == ch);
        assert forall|i: int|
            0 <= i < shorter.len() && crate::text::alphanumeric(
                #[trigger] shorter[i],
            ) implies plain_character(shorter[i]) by {
            assert(shorter[i] == text[i]);
        }
        let (words, gaps) = lemma_text_spelled(shorter);
        let end = gaps.last();
        assert(is_gap(gaps[gaps.len() - 1]));
        if words.len() > 0 {
            assert(plain_word(words[words.len() - 1]));
        }
        if !crate::text::alphanumeric(ch) {
            let longer = end.push(ch);
            let wider = gaps.drop_last().push(longer);
            assert(is_gap(longer)) by {
                assert forall|i: int| 0 <= i < longer.len() implies !crate::text::alphanumeric(
                    #[trigger] longer[i],
                ) by {
                    if i < end.len() {
                        assert(longer[i] == end[i]);
                    }
                }
            }
            assert forall|i: int| 0 <= i < wider.len() implies is_gap(#[trigger] wider[i]) by {
                if i < gaps.len() - 1 {
                    assert(wider[i] == gaps[i]);
                }
            }
            assert forall|i: int| 0 < i < words.len() implies (#[trigger] wider[i]).len() > 0 by {
                assert(wider[i] == gaps[i]);
            }
            assert(text =~= shorter.push(ch));
            if words.len() > 0 {
                let start = spelled(words.drop_last(), gaps.drop_last());
                assert(wider.drop_last() =~= gaps.drop_last());
                assert(spelled(words, wider) == start + words.last() + longer);
                assert(start + words.last() + longer =~= (start + words.last() + end).push(ch));
            } else {
                assert(wider =~= seq![longer]);
                assert(spelled(words, wider) == longer);
            }
            (words, wider)
        } else if words.len() > 0 && end.len() == 0 {
            let last = words.last().push(ch);
            let grown = words.drop_last().push(last);
            assert forall|i: int| 0 <= i < last.len() implies plain_character(
                #[trigger] last[i],
            ) by {
                if i < words.last().len() {
                    assert(last[i] == words.last()[i]);
                }
            }
            assert forall|i: int| 0 <= i < grown.len() implies plain_word(#[trigger] grown[i]) by {
                if i < words.len() - 1 {
                    assert(grown[i] == words[i]);
                }
            }
            let start = spelled(words.drop_last(), gaps.drop_last());
            assert(text =~= shorter.push(ch));
            assert(grown.drop_last() =~= words.drop_last());
            assert(spelled(grown, gaps) == start + last + end);
            assert(start + last + end =~= (start + words.last() + end).push(ch));
            (grown, gaps)
        } else {
            let grown = words.push(seq![ch]);
            let wider = gaps.push(Seq::empty());
            assert forall|i: int| 0 <= i < grown.len() implies plain_word(#[trigger] grown[i]) by {
                if i < words.len() {
                    assert(grown[i] == words[i]);
                }
            }
            assert forall|i: int| 0 <= i < wider.len() implies is_gap(#[trigger] wider[i]) by {
                if i < gaps.len() {
                    assert(wider[i] == gaps[i]);
                }
            }
            assert forall|i: int| 0 < i < grown.len() implies (#[trigger] wider[i]).len() > 0 by {
                assert(wider[i] == gaps[i]);
            }
            assert(grown.drop_last() =~= words);
            assert(wider.drop_last() =~= gaps);
            assert(spelled(grown, wider) =~= text);
            (grown, wider)
        }
    }
}

} // verus!
