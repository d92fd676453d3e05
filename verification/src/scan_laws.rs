//! What holds of the pass over the lines of a file.

use crate::copyright::copyright_range;
use crate::fix::{FixError, Scan};
use crate::format::Format;
use crate::lines::{no_line_feed, plain_lines};
use crate::notice_laws::lemma_kinds_apart;
use vstd::prelude::*;

verus! {

/// Position of the first sentinel line among the lines, or their number
/// where there is none.
pub open spec fn first_sentinel(style: Format, lines: Seq<Seq<char>>) -> int
    decreases lines.len(),
{
    if lines.len() == 0 || style.is_sentinel(lines[0]) {
        0
    } else {
        1 + first_sentinel(style, lines.drop_first())
    }
}

/// `first_sentinel` is in range, no line before it is a sentinel line, and
/// the line at it is one where it is not the number of lines.
pub proof fn lemma_first_sentinel(style: Format, lines: Seq<Seq<char>>)
    ensures
        0 <= first_sentinel(style, lines) <= lines.len(),
        forall|j: int| 0 <= j < first_sentinel(style, lines) ==> !style.is_sentinel(lines[j]),
        first_sentinel(style, lines) < lines.len() ==> style.is_sentinel(
            lines[first_sentinel(style, lines)],
        ),
    decreases lines.len(),
{
    if lines.len() == 0 || style.is_sentinel(lines[0]) {
    } else {
        let rest = lines.drop_first();
        lemma_first_sentinel(style, rest);
        assert forall|j: int| 0 <= j < first_sentinel(style, lines) implies !style.is_sentinel(
            lines[j],
        ) by {
            if j > 0 {
                assert(lines[j] == rest[j - 1]);
            }
        }
    }
}

/// A position with the properties of `first_sentinel` is `first_sentinel`.
pub proof fn lemma_first_sentinel_is(style: Format, lines: Seq<Seq<char>>, at: int)
    requires
        0 <= at <= lines.len(),
        forall|j: int| 0 <= j < at ==> !style.is_sentinel(lines[j]),
        at < lines.len() ==> style.is_sentinel(lines[at]),
    ensures
        first_sentinel(style, lines) == at,
{
    lemma_first_sentinel(style, lines);
}

/// Whether a line is neither a sentinel line nor a license line nor a
/// copyright line.
pub open spec fn ordinary(style: Format, line: Seq<char>) -> bool {
    &&& !style.is_sentinel(line)
    &&& style.license_of(line) is None
    &&& style.copyright_of(line) is None
}

/// Whether every line before the first sentinel line is ordinary, as it is
/// in a file whose notice was taken out.
pub open spec fn settled(style: Format, lines: Seq<Seq<char>>) -> bool {
    forall|i: int| 0 <= i < first_sentinel(style, lines) ==> ordinary(style, #[trigger] lines[i])
}

/// Behind a sentinel line every line is kept and none is an error.
pub proof fn lemma_scan_behind_sentinel(
    style: Format,
    current_year: u32,
    scan: Scan,
    lines: Seq<Seq<char>>,
)
    requires
        scan.sentinel,
    ensures
        scan.run(style, current_year, lines) == Ok::<Scan, FixError>(
            Scan { kept: scan.kept + lines, ..scan },
        ),
    decreases lines.len(),
{
    if lines.len() == 0 {
        assert(scan.kept + lines =~= scan.kept);
    } else {
        let next = scan.keep(lines[0]);
        lemma_scan_behind_sentinel(style, current_year, next, lines.drop_first());
        assert(next.kept + lines.drop_first() =~= scan.kept + lines);
    }
}

/// The pass over two lists of lines, one behind the other, is the pass over
/// the second from where the pass over the first ended.
pub proof fn lemma_scan_append(
    style: Format,
    current_year: u32,
    scan: Scan,
    a: Seq<Seq<char>>,
    b: Seq<Seq<char>>,
)
    ensures
        scan.run(style, current_year, a + b) == match scan.run(style, current_year, a) {
            Err(e) => Err(e),
            Ok(middle) => middle.run(style, current_year, b),
        },
    decreases a.len(),
{
    if a.len() == 0 {
        assert(a + b =~= b);
    } else {
        assert((a + b)[0] == a[0]);
        assert((a + b).drop_first() =~= a.drop_first() + b);
        match scan.step(style, current_year, a[0]) {
            Ok(next) => {
                lemma_scan_append(style, current_year, next, a.drop_first(), b);
            },
            Err(_) => {},
        }
    }
}

/// The pass over lines without a sentinel line does not come behind one.
pub proof fn lemma_scan_before_sentinel(
    style: Format,
    current_year: u32,
    scan: Scan,
    lines: Seq<Seq<char>>,
)
    requires
        !scan.sentinel,
        first_sentinel(style, lines) == lines.len(),
    ensures
        scan.run(style, current_year, lines) matches Ok(end) ==> !end.sentinel,
    decreases lines.len(),
{
    if lines.len() > 0 {
        lemma_first_sentinel(style, lines);
        assert(!style.is_sentinel(lines[0]));
        match scan.step(style, current_year, lines[0]) {
            Ok(next) => {
                lemma_scan_before_sentinel(style, current_year, next, lines.drop_first());
            },
            Err(_) => {},
        }
    }
}

/// The pass over settled lines keeps every line and has no error.
pub proof fn lemma_scan_settled(
    style: Format,
    current_year: u32,
    scan: Scan,
    lines: Seq<Seq<char>>,
)
    requires
        !scan.sentinel,
        settled(style, lines),
    ensures
        scan.run(style, current_year, lines) == Ok::<Scan, FixError>(
            Scan {
                sentinel: first_sentinel(style, lines) < lines.len(),
                kept: scan.kept + lines,
                ..scan
            },
        ),
    decreases lines.len(),
{
    if lines.len() == 0 {
        assert(scan.kept + lines =~= scan.kept);
    } else {
        let rest = lines.drop_first();
        if style.is_sentinel(lines[0]) {
            let next = Scan { sentinel: true, ..scan.keep(lines[0]) };
            lemma_scan_behind_sentinel(style, current_year, next, rest);
            assert(next.kept + rest =~= scan.kept + lines);
        } else {
            lemma_first_sentinel(style, rest);
            assert(ordinary(style, lines[0]));
            let next = scan.keep(lines[0]);
            assert forall|i: int| 0 <= i < first_sentinel(style, rest) implies ordinary(
                style,
                #[trigger] rest[i],
            ) by {
                assert(rest[i] == lines[i + 1]);
            }
            lemma_scan_settled(style, current_year, next, rest);
            assert(next.kept + rest =~= scan.kept + lines);
        }
    }
}

/// What holds of every state of a pass that started well: the kept lines
/// hold no line feed and are settled, the pass is behind a sentinel line
/// just when it kept one, and the first year is not after the current one.
pub open spec fn tidy(style: Format, current_year: u32, scan: Scan) -> bool {
    &&& plain_lines(scan.kept)
    &&& settled(style, scan.kept)
    &&& scan.sentinel == (first_sentinel(style, scan.kept) < scan.kept.len())
    &&& (scan.year_start matches Some(year) ==> year <= current_year)
}

/// One more line leaves a tidy pass tidy.
proof fn lemma_step_tidy(style: Format, current_year: u32, scan: Scan, line: Seq<char>)
    requires
        tidy(style, current_year, scan),
        no_line_feed(line),
    ensures
        scan.step(style, current_year, line) matches Ok(next) ==> tidy(style, current_year, next),
{
    let kept = scan.kept;
    let more = kept.push(line);
    lemma_first_sentinel(style, kept);
    let at = first_sentinel(style, kept);
    if scan.step(style, current_year, line) is Ok {
        let next = scan.step(style, current_year, line).unwrap();
        if next.kept == more {
            assert forall|i: int| 0 <= i < more.len() implies no_line_feed(#[trigger] more[i]) by {
                if i < kept.len() {
                    assert(more[i] == kept[i]);
                }
            }
            if scan.sentinel {
                assert(more[at] == kept[at]);
                assert forall|j: int| 0 <= j < at implies !style.is_sentinel(more[j]) by {
                    assert(more[j] == kept[j]);
                }
                lemma_first_sentinel_is(style, more, at);
                assert forall|i: int| 0 <= i < at implies ordinary(style, #[trigger] more[i]) by {
                    assert(more[i] == kept[i]);
                }
            } else if style.is_sentinel(line) {
                assert forall|j: int| 0 <= j < kept.len() implies !style.is_sentinel(more[j]) by {
                    assert(more[j] == kept[j]);
                }
                lemma_first_sentinel_is(style, more, kept.len() as int);
                assert forall|i: int| 0 <= i < kept.len() implies ordinary(
                    style,
                    #[trigger] more[i],
                ) by {
                    assert(more[i] == kept[i]);
                }
            } else {
                assert forall|j: int| 0 <= j < more.len() implies !style.is_sentinel(more[j]) by {
                    if j < kept.len() {
                        assert(more[j] == kept[j]);
                    }
                }
                lemma_first_sentinel_is(style, more, more.len() as int);
                assert forall|i: int| 0 <= i < more.len() implies ordinary(
                    style,
                    #[trigger] more[i],
                ) by {
                    if i < kept.len() {
                        assert(more[i] == kept[i]);
                    }
                }
            }
        }
    }
}

/// A pass that is tidy stays tidy over lines that hold no line feed.
pub proof fn lemma_scan_tidy(style: Format, current_year: u32, scan: Scan, lines: Seq<Seq<char>>)
    requires
        tidy(style, current_year, scan),
        plain_lines(lines),
    ensures
        scan.run(style, current_year, lines) matches Ok(end) ==> tidy(style, current_year, end),
    decreases lines.len(),
{
    if lines.len() > 0 {
        let rest = lines.drop_first();
        assert(forall|i: int| 0 <= i < rest.len() ==> rest[i] == lines[i + 1]);
        lemma_step_tidy(style, current_year, scan, lines[0]);
        match scan.step(style, current_year, lines[0]) {
            Ok(next) => {
                lemma_scan_tidy(style, current_year, next, rest);
            },
            Err(_) => {},
        }
    }
}

/// Every line that a pass keeps is one of the lines it went over, or was
/// kept before.
pub proof fn lemma_scan_keeps_lines(
    style: Format,
    current_year: u32,
    scan: Scan,
    lines: Seq<Seq<char>>,
)
    ensures
        scan.run(style, current_year, lines) matches Ok(end) ==> forall|k: int|
            0 <= k < end.kept.len() ==> scan.kept.contains(#[trigger] end.kept[k]) || lines.contains(
                end.kept[k],
            ),
    decreases lines.len(),
{
    if lines.len() == 0 {
        assert forall|k: int| 0 <= k < scan.kept.len() implies scan.kept.contains(
            #[trigger] scan.kept[k],
        ) by {}
    } else {
        let rest = lines.drop_first();
        match scan.step(style, current_year, lines[0]) {
            Ok(next) => {
                lemma_scan_keeps_lines(style, current_year, next, rest);
                if next.run(style, current_year, rest) is Ok {
                    let end = next.run(style, current_year, rest).unwrap();
                    assert forall|k: int| 0 <= k < end.kept.len() implies scan.kept.contains(
                        #[trigger] end.kept[k],
                    ) || lines.contains(end.kept[k]) by {
                        let line = end.kept[k];
                        if rest.contains(line) {
                            let i = choose|i: int| 0 <= i < rest.len() && rest[i] == line;
                            assert(lines[i + 1] == line);
                        } else {
                            assert(next.kept.contains(line));
                            let i = choose|i: int| 0 <= i < next.kept.len() && next.kept[i] == line;
                            if i < scan.kept.len() {
                                assert(scan.kept[i] == line);
                            } else {
                                assert(lines[0] == line);
                            }
                        }
                    }
                }
            },
            Err(_) => {},
        }
    }
}

/// Whether the lines hold at most one license line and at most one copyright
/// line, and no copyright line that starts in a year after the current one.
pub open spec fn clean(style: Format, current_year: u32, lines: Seq<Seq<char>>) -> bool {
    &&& forall|i: int, j: int|
        0 <= i < j < lines.len() ==> !(style.license_of(#[trigger] lines[i]) is Some
            && style.license_of(#[trigger] lines[j]) is Some)
    &&& forall|i: int, j: int|
        0 <= i < j < lines.len() ==> !(style.copyright_of(#[trigger] lines[i]) is Some
            && style.copyright_of(#[trigger] lines[j]) is Some)
    &&& forall|i: int|
        0 <= i < lines.len() && style.copyright_of(#[trigger] lines[i]) is Some
            ==> copyright_range(style.copyright_of(lines[i]).unwrap()).0 <= current_year
}

/// Whether none of the lines is a license line.
pub open spec fn no_license(style: Format, lines: Seq<Seq<char>>) -> bool {
    forall|i: int| 0 <= i < lines.len() ==> style.license_of(#[trigger] lines[i]) is None
}

/// Whether none of the lines is a copyright line.
pub open spec fn no_copyright(style: Format, lines: Seq<Seq<char>>) -> bool {
    forall|i: int| 0 <= i < lines.len() ==> style.copyright_of(#[trigger] lines[i]) is None
}

/// The pass over lines without a sentinel line has no error just when the
/// lines are clean and hold no license line after one was taken out, and no
/// copyright line after one was taken out.
pub proof fn lemma_scan_succeeds(
    style: Format,
    current_year: u32,
    scan: Scan,
    lines: Seq<Seq<char>>,
)
    requires
        !scan.sentinel,
        first_sentinel(style, lines) == lines.len(),
    ensures
        scan.run(style, current_year, lines) is Ok <==> {
            &&& clean(style, current_year, lines)
            &&& scan.license ==> no_license(style, lines)
            &&& scan.year_start is Some ==> no_copyright(style, lines)
        },
    decreases lines.len(),
{
    if lines.len() > 0 {
        let first = lines[0];
        let rest = lines.drop_first();
        lemma_first_sentinel(style, lines);
        lemma_first_sentinel(style, rest);
        lemma_kinds_apart(style, first);
        assert(!style.is_sentinel(first));
        assert(forall|i: int| 0 <= i < rest.len() ==> rest[i] == lines[i + 1]);
        // what holds of the lines, in terms of the first line and the rest
        assert(no_license(style, lines) <==> style.license_of(first) is None && no_license(
            style,
            rest,
        )) by {
            if no_license(style, lines) {
                assert forall|i: int| 0 <= i < rest.len() implies style.license_of(
                    #[trigger] rest[i],
                ) is None by {
                    assert(rest[i] == lines[i + 1]);
                }
            }
            if style.license_of(first) is None && no_license(style, rest) {
                assert forall|i: int| 0 <= i < lines.len() implies style.license_of(
                    #[trigger] lines[i],
                ) is None by {
                    if i > 0 {
                        assert(lines[i] == rest[i - 1]);
                    }
                }
            }
        }
        assert(no_copyright(style, lines) <==> style.copyright_of(first) is None && no_copyright(
            style,
            rest,
        )) by {
            if no_copyright(style, lines) {
                assert forall|i: int| 0 <= i < rest.len() implies style.copyright_of(
                    #[trigger] rest[i],
                ) is None by {
                    assert(rest[i] == lines[i + 1]);
                }
            }
            if style.copyright_of(first) is None && no_copyright(style, rest) {
                assert forall|i: int| 0 <= i < lines.len() implies style.copyright_of(
                    #[trigger] lines[i],
                ) is None by {
                    if i > 0 {
                        assert(lines[i] == rest[i - 1]);
                    }
                }
            }
        }
        assert(clean(style, current_year, lines) <==> {
            &&& clean(style, current_year, rest)
            &&& style.license_of(first) is Some ==> no_license(style, rest)
            &&& style.copyright_of(first) is Some ==> no_copyright(style, rest)
                && copyright_range(style.copyright_of(first).unwrap()).0 <= current_year
        }) by {
            if clean(style, current_year, lines) {
                assert forall|i: int, j: int| 0 <= i < j < rest.len() implies !(style.license_of(
                    #[trigger] rest[i],
                ) is Some && style.license_of(#[trigger] rest[j]) is Some) by {
                    assert(rest[i] == lines[i + 1]);
                    assert(rest[j] == lines[j + 1]);
                }
                assert forall|i: int, j: int| 0 <= i < j < rest.len() implies !(
                style.copyright_of(#[trigger] rest[i]) is Some && style.copyright_of(
                    #[trigger] rest[j],
                ) is Some) by {
                    assert(rest[i] == lines[i + 1]);
                    assert(rest[j] == lines[j + 1]);
                }
                assert forall|i: int|
                    0 <= i < rest.len() && style.copyright_of(
                        #[trigger] rest[i],
                    ) is Some implies copyright_range(style.copyright_of(rest[i]).unwrap()).0
                    <= current_year by {
                    assert(rest[i] == lines[i + 1]);
                }
                if style.license_of(first) is Some {
                    assert forall|i: int| 0 <= i < rest.len() implies style.license_of(
                        #[trigger] rest[i],
                    ) is None by {
                        assert(rest[i] == lines[i + 1]);
                    }
                }
                if style.copyright_of(first) is Some {
                    assert forall|i: int| 0 <= i < rest.len() implies style.copyright_of(
                        #[trigger] rest[i],
                    ) is None by {
                        assert(rest[i] == lines[i + 1]);
                    }
                }
            }
            if {
                &&& clean(style, current_year, rest)
                &&& style.license_of(first) is Some ==> no_license(style, rest)
                &&& style.copyright_of(first) is Some ==> no_copyright(style, rest)
                    && copyright_range(style.copyright_of(first).unwrap()).0 <= current_year
            } {
                assert forall|i: int, j: int| 0 <= i < j < lines.len() implies !(
                style.license_of(#[trigger] lines[i]) is Some && style.license_of(
                    #[trigger] lines[j],
                ) is Some) by {
                    assert(lines[j] == rest[j - 1]);
                    if i > 0 {
                        assert(lines[i] == rest[i - 1]);
                    }
                }
                assert forall|i: int, j: int| 0 <= i < j < lines.len() implies !(
                style.copyright_of(#[trigger] lines[i]) is Some && style.copyright_of(
                    #[trigger] lines[j],
                ) is Some) by {
                    assert(lines[j] == rest[j - 1]);
                    if i > 0 {
                        assert(lines[i] == rest[i - 1]);
                    }
                }
                assert forall|i: int|
                    0 <= i < lines.len() && style.copyright_of(
                        #[trigger] lines[i],
                    ) is Some implies copyright_range(style.copyright_of(lines[i]).unwrap()).0
                    <= current_year by {
                    if i > 0 {
                        assert(lines[i] == rest[i - 1]);
                    }
                }
            }
        }
        match scan.step(style, current_year, first) {
            Ok(next) => {
                lemma_scan_succeeds(style, current_year, next, rest);
            },
            Err(_) => {},
        }
    }
}

} // verus!
