//! The rows of the rail arrival feed.
use vstd::prelude::*;

use crate::text::{same_text, trim, uppercase};

verus! {

/// One row of the rail arrival feed: a train and its next arrival at a station.
#[derive(Clone, Debug)]
pub struct MartaTrainRow {
    pub destination: String,
    pub direction: String,
    pub event_time: String,
    pub is_realtime: String,
    pub line: String,
    pub next_arr: String,
    pub station: String,
    pub train_id: String,
    pub waiting_seconds: String,
    pub waiting_time: String,
    pub delay: String,
    pub latitude: Option<String>,
    pub longitude: Option<String>,
}

/// Whether a row comes from a train on its way: it is marked as realtime, in any case of
/// letters, and names a train.
pub open spec fn live(row: MartaTrainRow) -> bool {
    &&& crate::text::uppercased(crate::text::trimmed(row.is_realtime@)) == "TRUE"@
    &&& crate::text::trimmed(row.train_id@).len() > 0
}

impl MartaTrainRow {
    /// Whether the row comes from a train on its way.
    pub fn is_live(&self) -> (answer: bool)
        ensures
            answer == live(*self),
    {
        same_text(uppercase(trim(self.is_realtime.as_str()).as_str()).as_str(), "TRUE") && !trim(
            self.train_id.as_str(),
        ).as_str().is_empty()
    }
}

/// A row is live where its mark, trimmed, is made of the letters of "true", each in either case,
/// and its train id is more than white space.
pub proof fn live_rows_are_marked(row: MartaTrainRow)
    ensures
        live(row) <==> {
            let mark = crate::text::trimmed(row.is_realtime@);
            &&& mark.len() == 4
            &&& mark[0] == 't' || mark[0] == 'T'
            &&& mark[1] == 'r' || mark[1] == 'R'
            &&& mark[2] == 'u' || mark[2] == 'U'
            &&& mark[3] == 'e' || mark[3] == 'E'
            &&& crate::text::trimmed(row.train_id@) != Seq::<char>::empty()
        },
{
    reveal_strlit("TRUE");
    let mark = crate::text::trimmed(row.is_realtime@);
    let text = crate::text::uppercased(mark);
    assert("TRUE"@.len() == 4 && text.len() == mark.len());
    if mark.len() == 4 {
        crate::text::upper_tells_letter(mark[0], 'T');
        crate::text::upper_tells_letter(mark[1], 'R');
        crate::text::upper_tells_letter(mark[2], 'U');
        crate::text::upper_tells_letter(mark[3], 'E');
        assert(text[0] == crate::text::upper(mark[0]) && text[1] == crate::text::upper(mark[1])
            && text[2] == crate::text::upper(mark[2]) && text[3] == crate::text::upper(mark[3]));
        if text[0] == 'T' && text[1] == 'R' && text[2] == 'U' && text[3] == 'E' {
            assert(text =~= "TRUE"@);
        }
    }
    assert(crate::text::trimmed(row.train_id@).len() == 0 ==> crate::text::trimmed(row.train_id@)
        =~= Seq::<char>::empty());
}

} // verus!
