//! The text of a date or time reads back as the date or time.
use vstd::prelude::*;
use crate::datetime::{trim_zeros, DateTimeView, DateView, OffsetView, TimeView};
use crate::laws::digits::{lemma_four_padded, lemma_padded, lemma_trim_zeros, lemma_two_padded};
use crate::laws::words::{lemma_digits_run, lemma_word_chars, lemma_word_split};
use crate::parser::grammar::{has_word, holds, Step};
use crate::parser::line_grammar::{
    date_ahead, date_at, datetime_at, four, nanoseconds, offset_at, pow10, second_fraction_end,
    time_ahead, time_at,
};
use crate::text::{is_digit, padded};

verus! {

/// Whether the line format can write the date down and read it back: it is
/// valid, and its year has at most four digits.
pub open spec fn date_plain(d: DateView) -> bool {
    d.valid() && 1 <= d.year <= 9999
}

/// Whether the line format can write the time down and read it back: it is
/// valid, and its fraction is below a second.
pub open spec fn time_plain(t: TimeView) -> bool {
    t.valid() && 0 <= t.hour && 0 <= t.minute && 0 <= t.second && 0 <= t.nanosecond
        < 1_000_000_000
}

/// Whether the line format can write the offset down and read it back.
pub open spec fn offset_plain(o: OffsetView) -> bool {
    o.valid() && 0 <= o.minute
}

/// Whether the line format can write the date and time down and read it
/// back: a date or a time is there, the offset only with both, and each
/// part can be written and read.
pub open spec fn datetime_plain(d: DateTimeView) -> bool {
    &&& d.consistent()
    &&& d.date is Some || d.time is Some
    &&& d.date matches Some(x) ==> date_plain(x)
    &&& d.time matches Some(x) ==> time_plain(x)
    &&& d.offset matches Some(x) ==> offset_plain(x)
}

/// Whether what stands at `e` can follow a time: a line feed or the start
/// of an offset.
pub open spec fn ends_time(s: Seq<char>, e: int) -> bool {
    holds(s, e, '\n') || holds(s, e, 'Z') || holds(s, e, '+') || holds(s, e, '-')
}

/// Where the text of a date stands, the date is read.
pub proof fn lemma_date_round_trip(s: Seq<char>, q: int, d: DateView)
    requires
        date_plain(d),
        has_word(s, q, d.text()),
    ensures
        d.text().len() == 10,
        date_ahead(s, q),
        date_at(s, q) == Step::Done(d, q + 10),
{
    let y = padded(d.year as nat, 4);
    let m = padded(d.month as nat, 2);
    let day = padded(d.day as nat, 2);
    let dash = seq!['-'];
    assert(d.text() =~= y + (dash + (m + (dash + day))));
    lemma_word_split(s, q, y, dash + (m + (dash + day)));
    lemma_four_padded(s, q, d.year as nat);
    lemma_word_split(s, q + 4, dash, m + (dash + day));
    lemma_word_chars(s, q + 4, dash);
    assert(s[q + 4 + 0] == dash[0]);
    lemma_word_split(s, q + 5, m, dash + day);
    lemma_two_padded(s, q + 5, d.month as nat);
    lemma_word_split(s, q + 7, dash, day);
    lemma_word_chars(s, q + 7, dash);
    assert(s[q + 7 + 0] == dash[0]);
    lemma_two_padded(s, q + 8, d.day as nat);
}

/// Where the text of the fraction of a second stands, and behind it what
/// can follow a time, the fraction is read.
pub proof fn lemma_fraction_round_trip(s: Seq<char>, p: int, t: TimeView)
    requires
        0 <= t.nanosecond < 1_000_000_000,
        has_word(s, p, t.fraction_text()),
        ends_time(s, p + t.fraction_text().len()),
    ensures
        second_fraction_end(s, p) == p + t.fraction_text().len(),
        nanoseconds(s, p, p + t.fraction_text().len()) == t.nanosecond,
{
    reveal_with_fuel(pow10, 10);
    if t.nanosecond != 0 {
        let all = padded(t.nanosecond as nat, 9);
        lemma_padded(t.nanosecond as nat, 9);
        lemma_trim_zeros(all);
        let f = trim_zeros(all);
        let dot = seq!['.'];
        assert(t.fraction_text() == dot + f);
        lemma_word_split(s, p, dot, f);
        lemma_word_chars(s, p, dot);
        assert(s[p + 0] == dot[0]);
        lemma_word_chars(s, p + 1, f);
        assert(s[p + 1 + 0] == f[0]);
        lemma_digits_run(s, p + 1, f);
        assert(s.subrange(p + 1, p + 1 + f.len()) == f);
    } else {
        assert(t.fraction_text().len() == 0);
    }
}

/// Where the text of a time stands, and behind it what can follow a time,
/// the time is read.
pub proof fn lemma_time_round_trip(s: Seq<char>, p: int, t: TimeView)
    requires
        time_plain(t),
        has_word(s, p, t.text()),
        ends_time(s, p + t.text().len()),
    ensures
        time_ahead(s, p),
        !date_ahead(s, p),
        time_at(s, p) == Step::Done(t, p + t.text().len()),
{
    let h = padded(t.hour as nat, 2);
    let m = padded(t.minute as nat, 2);
    let sec = padded(t.second as nat, 2);
    let colon = seq![':'];
    let f = t.fraction_text();
    assert(t.text() =~= h + (colon + (m + (colon + (sec + f)))));
    lemma_word_split(s, p, h, colon + (m + (colon + (sec + f))));
    lemma_two_padded(s, p, t.hour as nat);
    lemma_word_split(s, p + 2, colon, m + (colon + (sec + f)));
    lemma_word_chars(s, p + 2, colon);
    assert(s[p + 2 + 0] == colon[0]);
    lemma_word_split(s, p + 3, m, colon + (sec + f));
    lemma_two_padded(s, p + 3, t.minute as nat);
    lemma_word_split(s, p + 5, colon, sec + f);
    lemma_word_chars(s, p + 5, colon);
    assert(s[p + 5 + 0] == colon[0]);
    lemma_word_split(s, p + 6, sec, f);
    lemma_two_padded(s, p + 6, t.second as nat);
    lemma_fraction_round_trip(s, p + 8, t);
    assert(t.text().len() == 8 + f.len());
}

/// The text of an offset.
pub proof fn lemma_offset_round_trip(s: Seq<char>, r: int, o: OffsetView)
    requires
        offset_plain(o),
        has_word(s, r, o.text()),
    ensures
        offset_at(s, r) == Step::Done(Some(o), r + o.text().len()),
{
    lemma_word_chars(s, r, o.text());
    assert(s[r + 0] == o.text()[0]);
    if o.hour == 0 && o.minute == 0 {
    } else {
        let magnitude: nat = if o.hour < 0 {
            (-o.hour) as nat
        } else {
            o.hour as nat
        };
        let sign = if o.hour < 0 {
            seq!['-']
        } else {
            seq!['+']
        };
        let h = padded(magnitude, 2);
        let m = padded(o.minute as nat, 2);
        let colon = seq![':'];
        assert(o.text() =~= sign + (h + (colon + m)));
        lemma_word_split(s, r, sign, h + (colon + m));
        lemma_word_split(s, r + 1, h, colon + m);
        lemma_two_padded(s, r + 1, magnitude);
        lemma_word_split(s, r + 3, colon, m);
        lemma_word_chars(s, r + 3, colon);
        assert(s[r + 3 + 0] == colon[0]);
        lemma_two_padded(s, r + 4, o.minute as nat);
    }
}

/// Where the text of a date and time stands, and behind it a line feed,
/// the date and time is read.
pub proof fn lemma_datetime_round_trip(s: Seq<char>, q: int, d: DateTimeView)
    requires
        datetime_plain(d),
        has_word(s, q, d.text()),
        holds(s, q + d.text().len(), '\n'),
    ensures
        date_ahead(s, q) || time_ahead(s, q),
        0 <= q < s.len(),
        is_digit(s[q]),
        datetime_at(s, q) == Step::Done(d, q + d.text().len()),
{
    let end = q + d.text().len();
    match d.date {
        Some(date) => {
            match d.time {
                Some(time) => {
                    let tail = match d.offset {
                        Some(o) => o.text(),
                        None => Seq::<char>::empty(),
                    };
                    assert(d.text() =~= date.text() + (seq!['T'] + (time.text() + tail)));
                    lemma_word_split(s, q, date.text(), seq!['T'] + (time.text() + tail));
                    lemma_date_round_trip(s, q, date);
                    lemma_word_split(s, q + 10, seq!['T'], time.text() + tail);
                    lemma_word_chars(s, q + 10, seq!['T']);
                    assert(s[q + 10 + 0] == seq!['T'][0]);
                    lemma_word_split(s, q + 11, time.text(), tail);
                    let r = q + 11 + time.text().len();
                    match d.offset {
                        Some(o) => {
                            lemma_word_chars(s, r, o.text());
                            assert(s[r + 0] == o.text()[0]);
                            lemma_time_round_trip(s, q + 11, time);
                            lemma_offset_round_trip(s, r, o);
                        },
                        None => {
                            lemma_time_round_trip(s, q + 11, time);
                        },
                    }
                },
                None => {
                    assert(d.text() =~= date.text());
                    lemma_date_round_trip(s, q, date);
                },
            }
        },
        None => {
            let time = d.time->0;
            assert(d.text() =~= time.text());
            lemma_time_round_trip(s, q, time);
        },
    }
}

} // verus!
