//! Reading what `apt list` prints: a line `Listing...`, then one line for each package.

use crate::scan::{lemma_until_is, until};
use vstd::prelude::*;

verus! {

/// The line feed, which ends a line.
pub const LF: u8 = 10;

/// The carriage return, which may stand before a line feed.
pub const CR: u8 = 13;

/// The line before the packages: the bytes of `Listing...` and a line feed.
pub open spec fn marker() -> Seq<u8> {
    seq![76u8, 105u8, 115u8, 116u8, 105u8, 110u8, 103u8, 46u8, 46u8, 46u8, LF]
}

/// The marker stands in `text` at position `at`.
pub open spec fn marker_at(text: Seq<u8>, at: int) -> bool {
    0 <= at && at + marker().len() <= text.len() && text.subrange(at, at + marker().len())
        == marker()
}

/// The first position from `from` on at which the marker stands in `text`.
pub open spec fn first_marker(text: Seq<u8>, from: int) -> Option<int>
    decreases text.len() - from,
{
    if from < 0 || from + marker().len() > text.len() {
        None
    } else if marker_at(text, from) {
        Some(from)
    } else {
        first_marker(text, from + 1)
    }
}

/// What `text` holds between its first marker and the next one, or its end where there
/// is no other; `None` where `text` holds no marker.
pub open spec fn listed_part(text: Seq<u8>) -> Option<Seq<u8>> {
    match first_marker(text, 0) {
        Some(at) => {
            let start = at + marker().len();
            match first_marker(text, start) {
                Some(end) => Some(text.subrange(start, end)),
                None => Some(text.subrange(start, text.len() as int)),
            }
        },
        None => None,
    }
}

/// The first line of `s`, without the line feed that ends it and without a carriage
/// return before that line feed.
pub open spec fn first_line(s: Seq<u8>) -> Seq<u8> {
    let end = until(s, LF);
    if 0 < end < s.len() && s[end - 1] == CR {
        s.take(end - 1)
    } else {
        s.take(end)
    }
}

/// The lines of `s` that are not empty, in order.
pub open spec fn lines_of(s: Seq<u8>) -> Seq<Seq<u8>>
    decreases s.len(),
{
    if s.len() == 0 {
        Seq::empty()
    } else {
        let rest = if 0 <= until(s, LF) < s.len() {
            lines_of(s.skip(until(s, LF) + 1))
        } else {
            Seq::empty()
        };
        if first_line(s).len() > 0 {
            seq![first_line(s)] + rest
        } else {
            rest
        }
    }
}

/// What each of `lines` holds.
pub open spec fn contents(lines: Seq<&[u8]>) -> Seq<Seq<u8>> {
    lines.map_values(|line: &[u8]| line@)
}

/// Whether the marker stands in `output` at position `at`.
fn is_marker_at(output: &[u8], at: usize) -> (found: bool)
    requires
        at + marker().len() <= output.len(),
    ensures
        found == marker_at(output@, at as int),
{
    let marker: [u8; 11] = [76, 105, 115, 116, 105, 110, 103, 46, 46, 46, LF];
    assert(marker@ =~= self::marker());
    let mut i: usize = 0;
    while i < 11
        invariant
            i <= 11,
            at + 11 <= output.len(),
            marker@ == self::marker(),
            forall|j: int| 0 <= j < i ==> output@[at + j] == marker@[j],
        decreases 11 - i,
    {
        if output[at + i] != marker[i] {
            assert(output@.subrange(at as int, at + 11)[i as int] != self::marker()[i as int]);
            return false;
        }
        i += 1;
    }
    assert(output@.subrange(at as int, at + 11) =~= self::marker());
    true
}

/// The first position from `from` on at which the marker stands in `output`.
fn find_marker(output: &[u8], from: usize) -> (found: Option<usize>)
    ensures
        match found {
            Some(at) => first_marker(output@, from as int) == Some(at as int) && from <= at
                && at + marker().len() <= output.len(),
            None => first_marker(output@, from as int) is None,
        },
{
    let mut at: usize = from;
    while at <= output.len() && output.len() - at >= 11
        invariant
            from <= at,
            first_marker(output@, at as int) == first_marker(output@, from as int),
        decreases output.len() - at,
    {
        if is_marker_at(output, at) {
            return Some(at);
        }
        at += 1;
    }
    None
}

/// The lines of packages in what `apt list` printed: the lines that are not empty
/// between the first marker and the next, or the end. `None` where there is no marker.
pub fn listed_lines<'a>(output: &'a [u8]) -> (lines: Option<Vec<&'a [u8]>>)
    ensures
        match listed_part(output@) {
            Some(part) => lines is Some && contents(lines.unwrap()@) == lines_of(part),
            None => lines is None,
        },
{
    let start = match find_marker(output, 0) {
        Some(at) => at + 11,
        None => {
            return None;
        },
    };
    let end = match find_marker(output, start) {
        Some(at) => at,
        None => output.len(),
    };
    let ghost part = output@.subrange(start as int, end as int);
    let mut lines: Vec<&'a [u8]> = Vec::new();
    let mut pos: usize = start;
    while pos < end
        invariant
            start <= pos <= end <= output.len(),
            part == output@.subrange(start as int, end as int),
            contents(lines@) + lines_of(output@.subrange(pos as int, end as int)) == lines_of(
                part,
            ),
        decreases end - pos,
    {
        let ghost left = output@.subrange(pos as int, end as int);
        let mut stop: usize = pos;
        while stop < end && output[stop] != LF
            invariant
                pos <= stop <= end <= output.len(),
                forall|j: int| pos <= j < stop ==> output@[j] != LF,
            decreases end - stop,
        {
            stop += 1;
        }
        proof {
            lemma_until_is(left, LF, stop - pos);
        }
        let line_end = if pos < stop && stop < end && output[stop - 1] == CR {
            stop - 1
        } else {
            stop
        };
        let ghost before = contents(lines@);
        if pos < line_end {
            let line = &output[pos..line_end];
            assert(line@ =~= first_line(left));
            lines.push(line);
            assert(contents(lines@) =~= before.push(first_line(left)));
        } else {
            assert(first_line(left).len() == 0);
        }
        if stop < end {
            assert(left.skip(stop - pos + 1) =~= output@.subrange(stop + 1, end as int));
            pos = stop + 1;
        } else {
            pos = stop;
        }
        proof {
            let after = output@.subrange(pos as int, end as int);
            if stop == end {
                assert(lines_of(after) =~= Seq::<Seq<u8>>::empty());
            }
            assert(contents(lines@) + lines_of(after) =~= before + lines_of(left));
        }
    }
    proof {
        assert(lines_of(output@.subrange(pos as int, end as int)) =~= Seq::<Seq<u8>>::empty());
        assert(contents(lines@) =~= lines_of(part));
    }
    Some(lines)
}

} // verus!
