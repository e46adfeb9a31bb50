# marta_gtfs_rt

MARTA's rail arrivals as realtime transit messages: the stations, times and delays that the
arrival feed reports for a train are matched to a trip of the static schedule, and the trip updates
and vehicle positions that follow are handed out. The library is verified with Verus.

## Layout

- `src/` is the verified library.
  - `text`, `names`, `aliases`: texts, station names in their common form, and what riders call a
    station.
  - `delay`, `time`, `coordinates`: reading delays, times in New York, and decimal numbers.
  - `feed`, `service`, `patterns`, `schedules`, `builder`, `index`: the static schedule and its
    index.
  - `models`, `groups`, `observation`: the rows of the feed, and what the rows of a train say.
  - `alignment`, `matcher`, `guarantees`, `agreement`: finding the trip of a train, what a match
    guarantees, and that indexes of one schedule match alike.
  - `assignments`, `realtime`, `converter`: the trips that trains were assigned to, the messages,
    and the converter that keeps both between polls.
  - `ordered`, `sequences`: sorting, and facts about sequences.
- `tests/` runs the library.
- `app/` fetches the feed, reads the schedule and writes GTFS-Realtime messages.

## What is trusted

Dates, times and the time zone come from `chrono` and `chrono_tz`, and the clock from the standard
library. The functions that call them say in their doc comments what is believed of the result.
