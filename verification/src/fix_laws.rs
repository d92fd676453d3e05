//! What holds of a file that is rewritten: its line endings are preserved,
//! what stands behind a sentinel line stays, a second run changes nothing,
//! and the rewritten file passes the check.

use crate::check::{check_outcome, CheckFault};
use crate::fix::{assemble, fixed_text, separator, FixError, Scan};
use crate::format::Format;
use crate::lines::{
    ends_in_cr, eol, has_crlf, join_lines, lemma_join_append, lemma_join_chars, lemma_join_cr,
    lemma_join_crlf, lemma_join_pairs, lemma_lines_of_join, lemma_lines_plain, lines_of,
    no_line_feed, plain_lines,
};
use crate::notice_laws::{
    lemma_copyright_round_trip, lemma_digits_plain, lemma_kinds_apart, lemma_notice_lines,
    lemma_prefixes, lemma_rendered_notice_passes, plain_text,
};
use crate::runner::{job_verdict, Verdict};
use crate::scan_laws::{
    clean, first_sentinel, lemma_first_sentinel, lemma_first_sentinel_is, lemma_scan_append,
    lemma_scan_before_sentinel, lemma_scan_behind_sentinel, lemma_scan_keeps_lines,
    lemma_scan_settled, lemma_scan_succeeds, lemma_scan_tidy, ordinary, settled, tidy,
};
use crate::text::decimal_digits;
use vstd::prelude::*;

verus! {

/// The blank line that parts a notice from the kept lines, as a list of
/// lines: one blank line, or none.
pub open spec fn blank_lines(style: Format, kept: Seq<Seq<char>>) -> Seq<Seq<char>> {
    if kept.len() > 0 && !style.is_sentinel(kept[0]) && kept[0].len() > 0 {
        seq![Seq::<char>::empty()]
    } else {
        Seq::empty()
    }
}

/// The lines of a rewritten file: the license line, the copyright line, the
/// blank line where there is one, and the kept lines.
pub open spec fn written_lines(
    style: Format,
    year_start: u32,
    current_year: u32,
    holder: Seq<char>,
    license: Seq<char>,
    kept: Seq<Seq<char>>,
) -> Seq<Seq<char>> {
    seq![style.license_line(license), style.copyright_line(year_start, current_year, holder)]
        + blank_lines(style, kept) + kept
}

/// The first year of the notice that a pass leads to.
pub open spec fn first_year(scan: Scan, current_year: u32) -> u32 {
    match scan.year_start {
        Some(year) => year,
        None => current_year,
    }
}

/// The lines that a file is rewritten to, where it can be rewritten.
pub open spec fn written_of(
    style: Format,
    text: Seq<char>,
    holder: Seq<char>,
    license: Seq<char>,
    current_year: u32,
) -> Seq<Seq<char>> {
    let scan = Scan::start().run(style, current_year, lines_of(text)).unwrap();
    written_lines(style, first_year(scan, current_year), current_year, holder, license, scan.kept)
}

/// A rewritten file is its lines, each followed by the line ending.
pub proof fn lemma_assemble_lines(
    style: Format,
    year_start: u32,
    current_year: u32,
    holder: Seq<char>,
    license: Seq<char>,
    kept: Seq<Seq<char>>,
    crlf: bool,
)
    ensures
        assemble(
            style,
            style.notice(year_start, current_year, holder, license, crlf),
            kept,
            crlf,
        ) == join_lines(
            written_lines(style, year_start, current_year, holder, license, kept),
            crlf,
        ),
{
    let first = style.license_line(license);
    let second = style.copyright_line(year_start, current_year, holder);
    let head = seq![first, second];
    let blank = blank_lines(style, kept);
    lemma_join_append(head + blank, kept, crlf);
    lemma_join_append(head, blank, crlf);
    assert(head.drop_first() =~= seq![second]);
    assert(seq![second].drop_first() =~= Seq::<Seq<char>>::empty());
    assert(join_lines(seq![second].drop_first(), crlf) =~= Seq::<char>::empty());
    assert(join_lines(seq![second], crlf) =~= second + eol(crlf));
    assert(join_lines(head, crlf) =~= style.notice(
        year_start,
        current_year,
        holder,
        license,
        crlf,
    ));
    if blank.len() > 0 {
        assert(blank.drop_first() =~= Seq::<Seq<char>>::empty());
        assert(join_lines(blank.drop_first(), crlf) =~= Seq::<char>::empty());
        assert(join_lines(blank, crlf) =~= eol(crlf));
    } else {
        assert(join_lines(blank, crlf) =~= Seq::<char>::empty());
    }
    assert(join_lines(blank, crlf) == separator(style, kept, crlf));
}

/// The pass over the lines of a file is tidy at its end.
proof fn lemma_file_scan_tidy(style: Format, text: Seq<char>, current_year: u32)
    ensures
        Scan::start().run(style, current_year, lines_of(text)) matches Ok(end) ==> tidy(
            style,
            current_year,
            end,
        ),
        plain_lines(lines_of(text)),
{
    lemma_lines_plain(text);
    lemma_scan_tidy(style, current_year, Scan::start(), lines_of(text));
}

/// The lines of a rewritten file hold no line feed, where the holder and the
/// license hold none.
proof fn lemma_written_plain(
    style: Format,
    year_start: u32,
    current_year: u32,
    holder: Seq<char>,
    license: Seq<char>,
    kept: Seq<Seq<char>>,
)
    requires
        no_line_feed(holder),
        no_line_feed(license),
        plain_lines(kept),
    ensures
        plain_lines(written_lines(style, year_start, current_year, holder, license, kept)),
{
    lemma_notice_lines(style, year_start, current_year, holder, license, true, Seq::empty());
    let written = written_lines(style, year_start, current_year, holder, license, kept);
    let blank = blank_lines(style, kept);
    assert forall|i: int| 0 <= i < written.len() implies no_line_feed(#[trigger] written[i]) by {
        if i >= 2 + blank.len() {
            assert(written[i] == kept[i - 2 - blank.len()]);
        } else if i >= 2 {
            assert(written[i] == blank[i - 2]);
        }
    }
}

/// Line endings are preserved. A file that can be rewritten is rewritten to
/// lines that each end as the lines of the file do: the new text is a list
/// of lines without a line feed in them, each followed by the line ending of
/// the file. In a file with carriage return and line feed every line feed of
/// the new text stands directly behind a carriage return. In a file without
/// that pair the new text holds the pair only where one of its lines ends in
/// a carriage return of its own. This holds for a holder and a license that
/// hold no line feed.
pub proof fn lemma_fix_line_endings(
    style: Format,
    text: Seq<char>,
    holder: Seq<char>,
    license: Seq<char>,
    current_year: u32,
)
    requires
        no_line_feed(holder),
        no_line_feed(license),
        fixed_text(style, text, holder, license, current_year) is Ok,
    ensures
        ({
            let fixed = fixed_text(style, text, holder, license, current_year).unwrap();
            &&& exists|lines: Seq<Seq<char>>|
                plain_lines(lines) && fixed == #[trigger] join_lines(lines, has_crlf(text))
            &&& has_crlf(text) ==> forall|i: int|
                0 <= i < fixed.len() && #[trigger] fixed[i] == '\n' ==> i > 0 && fixed[i - 1]
                    == '\r'
            &&& !has_crlf(text) ==> (has_crlf(fixed) <==> exists|k: int|
                0 <= k < written_of(style, text, holder, license, current_year).len()
                    && ends_in_cr(
                    #[trigger] written_of(style, text, holder, license, current_year)[k],
                ))
        }),
{
    let crlf = has_crlf(text);
    let scan = Scan::start().run(style, current_year, lines_of(text)).unwrap();
    let year_start = first_year(scan, current_year);
    let fixed = fixed_text(style, text, holder, license, current_year).unwrap();
    let written = written_lines(style, year_start, current_year, holder, license, scan.kept);
    lemma_file_scan_tidy(style, text, current_year);
    lemma_written_plain(style, year_start, current_year, holder, license, scan.kept);
    lemma_assemble_lines(style, year_start, current_year, holder, license, scan.kept, crlf);
    assert(fixed == join_lines(written, crlf));
    assert(written == written_of(style, text, holder, license, current_year));
    if crlf {
        lemma_join_pairs(written);
    } else {
        if has_crlf(fixed) {
            lemma_join_crlf(written);
        }
        if exists|k: int| 0 <= k < written.len() && ends_in_cr(#[trigger] written[k]) {
            let k = choose|k: int| 0 <= k < written.len() && ends_in_cr(#[trigger] written[k]);
            lemma_join_cr(written, k);
        }
    }
}

/// A file without carriage returns stays without: where the file, the
/// holder and the license hold no carriage return, and the holder and the
/// license no line feed, the rewritten file holds no carriage return.
pub proof fn lemma_fix_keeps_line_feeds(
    style: Format,
    text: Seq<char>,
    holder: Seq<char>,
    license: Seq<char>,
    current_year: u32,
)
    requires
        plain_text(holder),
        plain_text(license),
        !text.contains('\r'),
        fixed_text(style, text, holder, license, current_year) is Ok,
    ensures
        !fixed_text(style, text, holder, license, current_year).unwrap().contains('\r'),
{
    let lines = lines_of(text);
    let scan = Scan::start().run(style, current_year, lines).unwrap();
    let year_start = first_year(scan, current_year);
    let fixed = fixed_text(style, text, holder, license, current_year).unwrap();
    let written = written_lines(style, year_start, current_year, holder, license, scan.kept);
    let blank = blank_lines(style, scan.kept);
    assert(!has_crlf(text)) by {
        if has_crlf(text) {
            let i = choose|i: int| 0 < i < text.len() && text[i - 1] == '\r' && #[trigger] text[i] == '\n';
            assert(text.contains(text[i - 1]));
        }
    }
    lemma_assemble_lines(style, year_start, current_year, holder, license, scan.kept, false);
    if fixed.contains('\r') {
        lemma_join_chars(written, false, '\r');
        assert(!eol(false).contains('\r')) by {
            if eol(false).contains('\r') {
                let i = choose|i: int| 0 <= i < eol(false).len() && eol(false)[i] == '\r';
            }
        }
        let k = choose|k: int| 0 <= k < written.len() && (#[trigger] written[k]).contains('\r');
        let line = written[k];
        let at = choose|at: int| 0 <= at < line.len() && line[at] == '\r';
        lemma_prefixes(style);
        lemma_digits_plain(year_start as nat);
        lemma_digits_plain(current_year as nat);
        if k == 0 {
            let prefix = style.license_prefix();
            if at < prefix.len() {
                assert(line[at] == prefix[at]);
            } else {
                assert(line[at] == license[at - prefix.len()]);
            }
        } else if k == 1 {
            let prefix = style.copyright_prefix();
            let years = Format::years_text(year_start, current_year);
            let digits = decimal_digits(year_start as nat);
            let more = decimal_digits(current_year as nat);
            if at < prefix.len() {
                assert(line[at] == prefix[at]);
            } else if at < prefix.len() + years.len() {
                let j = at - prefix.len();
                assert(line[at] == years[j]);
                if j < digits.len() {
                    assert(years[j] == digits[j]);
                } else if j > digits.len() {
                    assert(years[j] == more[j - digits.len() - 1]);
                }
            } else if at > prefix.len() + years.len() {
                assert(line[at] == holder[at - prefix.len() - years.len() - 1]);
            }
        } else if k < 2 + blank.len() {
            assert(line == blank[k - 2]);
        } else {
            assert(line == scan.kept[k - 2 - blank.len()]);
            lemma_scan_keeps_lines(style, current_year, Scan::start(), lines);
            assert(lines.contains(line));
            let i = choose|i: int| 0 <= i < lines.len() && lines[i] == line;
            lemma_lines_plain(text);
            assert(lines[i].contains('\r'));
            assert(text.contains('\r'));
        }
    }
}

/// A file can be rewritten just when the lines before its first sentinel
/// line hold at most one license line and at most one copyright line, and no
/// copyright line that starts in a year after the current one.
pub proof fn lemma_fix_succeeds(
    style: Format,
    text: Seq<char>,
    holder: Seq<char>,
    license: Seq<char>,
    current_year: u32,
)
    ensures
        fixed_text(style, text, holder, license, current_year) is Ok <==> clean(
            style,
            current_year,
            lines_of(text).take(first_sentinel(style, lines_of(text))),
        ),
{
    let lines = lines_of(text);
    lemma_first_sentinel(style, lines);
    let at = first_sentinel(style, lines);
    let head = lines.take(at);
    assert forall|j: int| 0 <= j < head.len() implies !style.is_sentinel(head[j]) by {
        assert(head[j] == lines[j]);
    }
    lemma_first_sentinel_is(style, head, head.len() as int);
    lemma_scan_succeeds(style, current_year, Scan::start(), head);
    if at < lines.len() {
        lemma_fix_keeps_behind_sentinel(style, text, holder, license, current_year);
    } else {
        assert(head =~= lines);
    }
}

/// What stands at or behind the first sentinel line of a file is not
/// inspected and stays. The lines before the sentinel line alone decide
/// whether the file can be rewritten, and the rewritten file ends with the
/// sentinel line and every line behind it, in their order, each with the
/// line ending of the file.
pub proof fn lemma_fix_keeps_behind_sentinel(
    style: Format,
    text: Seq<char>,
    holder: Seq<char>,
    license: Seq<char>,
    current_year: u32,
)
    requires
        first_sentinel(style, lines_of(text)) < lines_of(text).len(),
    ensures
        ({
            let lines = lines_of(text);
            let at = first_sentinel(style, lines);
            let before = Scan::start().run(style, current_year, lines.take(at));
            let behind = join_lines(lines.skip(at), has_crlf(text));
            match fixed_text(style, text, holder, license, current_year) {
                Ok(fixed) => before is Ok && fixed.len() >= behind.len() && fixed.skip(
                    fixed.len() - behind.len(),
                ) == behind,
                Err(e) => before == Err::<Scan, FixError>(e),
            }
        }),
{
    let lines = lines_of(text);
    let crlf = has_crlf(text);
    lemma_first_sentinel(style, lines);
    let at = first_sentinel(style, lines);
    let head = lines.take(at);
    let tail = lines.skip(at);
    assert(head + tail =~= lines);
    lemma_scan_append(style, current_year, Scan::start(), head, tail);
    match Scan::start().run(style, current_year, head) {
        Err(_) => {},
        Ok(middle) => {
            assert forall|j: int| 0 <= j < head.len() implies !style.is_sentinel(head[j]) by {
                assert(head[j] == lines[j]);
            }
            lemma_first_sentinel_is(style, head, head.len() as int);
            lemma_scan_before_sentinel(style, current_year, Scan::start(), head);
            assert(tail[0] == lines[at]);
            let next = Scan { sentinel: true, ..middle.keep(tail[0]) };
            lemma_scan_behind_sentinel(style, current_year, next, tail.drop_first());
            assert(next.kept + tail.drop_first() =~= middle.kept + tail);
            let end = Scan { kept: middle.kept + tail, ..next };
            assert(Scan::start().run(style, current_year, lines) == Ok::<Scan, FixError>(end));
            lemma_join_append(middle.kept, tail, crlf);
            let fixed = fixed_text(style, text, holder, license, current_year).unwrap();
            let behind = join_lines(tail, crlf);
            assert(fixed.skip(fixed.len() - behind.len()) =~= behind);
        },
    }
}

/// The pass over the two lines of a notice takes both out.
proof fn lemma_scan_notice(
    style: Format,
    year_start: u32,
    current_year: u32,
    holder: Seq<char>,
    license: Seq<char>,
)
    requires
        year_start <= current_year,
    ensures
        Scan::start().run(
            style,
            current_year,
            seq![style.license_line(license), style.copyright_line(year_start, current_year, holder)],
        ) == Ok::<Scan, FixError>(
            Scan { license: true, year_start: Some(year_start), ..Scan::start() },
        ),
{
    let first = style.license_line(license);
    let second = style.copyright_line(year_start, current_year, holder);
    let head = seq![first, second];
    lemma_kinds_apart(style, first);
    lemma_kinds_apart(style, second);
    lemma_copyright_round_trip(year_start, current_year, holder);
    assert(style.license_prefix().is_prefix_of(first));
    assert(style.copyright_prefix().is_prefix_of(second));
    assert(second.skip(style.copyright_prefix().len() as int) =~= Format::years_text(
        year_start,
        current_year,
    ) + seq![' '] + holder);
    let start = Scan::start();
    let licensed = Scan { license: true, ..start };
    let middle = Scan { year_start: Some(year_start), ..licensed };
    assert(start.step(style, current_year, first) == Ok::<Scan, FixError>(licensed));
    assert(licensed.step(style, current_year, second) == Ok::<Scan, FixError>(middle));
    assert(head.drop_first() =~= seq![second]);
    assert(seq![second].drop_first() =~= Seq::<Seq<char>>::empty());
    assert(middle.run(style, current_year, seq![second].drop_first()) == Ok::<Scan, FixError>(
        middle,
    ));
    assert(licensed.run(style, current_year, seq![second]) == Ok::<Scan, FixError>(middle));
}

/// Settled lines stay settled behind the blank line that parts them from a
/// notice.
proof fn lemma_blank_settled(style: Format, kept: Seq<Seq<char>>)
    requires
        settled(style, kept),
    ensures
        settled(style, blank_lines(style, kept) + kept),
{
    let blank = blank_lines(style, kept);
    let body = blank + kept;
    lemma_prefixes(style);
    lemma_first_sentinel(style, kept);
    if blank.len() > 0 {
        let empty = Seq::<char>::empty();
        assert(body[0] == empty);
        assert(!style.sentinel_prefix().is_prefix_of(empty));
        assert(!style.license_prefix().is_prefix_of(empty));
        assert(!style.copyright_prefix().is_prefix_of(empty));
        assert(body.drop_first() =~= kept);
        lemma_first_sentinel(style, body);
        assert forall|i: int| 0 <= i < first_sentinel(style, body) implies ordinary(
            style,
            #[trigger] body[i],
        ) by {
            if i > 0 {
                assert(body[i] == kept[i - 1]);
            }
        }
    } else {
        assert(body =~= kept);
    }
}

/// The pass over the lines of a rewritten file takes out the notice and
/// keeps every other line.
proof fn lemma_scan_written(
    style: Format,
    year_start: u32,
    current_year: u32,
    holder: Seq<char>,
    license: Seq<char>,
    kept: Seq<Seq<char>>,
)
    requires
        year_start <= current_year,
        settled(style, kept),
    ensures
        Scan::start().run(
            style,
            current_year,
            written_lines(style, year_start, current_year, holder, license, kept),
        ) matches Ok(end) && end.year_start == Some(year_start) && end.kept == blank_lines(
            style,
            kept,
        ) + kept,
{
    let head = seq![
        style.license_line(license),
        style.copyright_line(year_start, current_year, holder),
    ];
    let body = blank_lines(style, kept) + kept;
    let written = written_lines(style, year_start, current_year, holder, license, kept);
    let middle = Scan { license: true, year_start: Some(year_start), ..Scan::start() };
    assert(written =~= head + body);
    lemma_scan_notice(style, year_start, current_year, holder, license);
    lemma_scan_append(style, current_year, Scan::start(), head, body);
    lemma_blank_settled(style, kept);
    lemma_scan_settled(style, current_year, middle, body);
    assert(middle.kept + body =~= body);
}

/// A notice with the kept lines behind the blank line is the same text as
/// the notice with the kept lines.
proof fn lemma_assemble_blank(style: Format, notice: Seq<char>, kept: Seq<Seq<char>>, crlf: bool)
    ensures
        assemble(style, notice, blank_lines(style, kept) + kept, crlf) == assemble(
            style,
            notice,
            kept,
            crlf,
        ),
{
    let blank = blank_lines(style, kept);
    let body = blank + kept;
    if blank.len() > 0 {
        lemma_join_append(blank, kept, crlf);
        assert(blank.drop_first() =~= Seq::<Seq<char>>::empty());
        assert(join_lines(blank.drop_first(), crlf) =~= Seq::<char>::empty());
        assert(join_lines(blank, crlf) =~= eol(crlf));
        assert(body[0] == Seq::<char>::empty());
        assert(separator(style, body, crlf) =~= Seq::<char>::empty());
        assert(assemble(style, notice, body, crlf) =~= assemble(style, notice, kept, crlf));
    } else {
        assert(body =~= kept);
    }
}

/// Rewriting is idempotent. A file that was rewritten is rewritten to itself:
/// the second run gives the text of the first, for the same holder, license
/// and year. This holds for a holder and a license that hold no line feed,
/// and for a first run that left the line endings of the file as they were:
/// a carriage return at the end of the holder, of the license or of a kept
/// line makes, with the line feed behind it, the pair that the second run
/// takes for the line ending of the file.
pub proof fn lemma_fix_idempotent(
    style: Format,
    text: Seq<char>,
    holder: Seq<char>,
    license: Seq<char>,
    current_year: u32,
)
    requires
        no_line_feed(holder),
        no_line_feed(license),
        fixed_text(style, text, holder, license, current_year) is Ok,
        has_crlf(fixed_text(style, text, holder, license, current_year).unwrap()) == has_crlf(text),
    ensures
        fixed_text(
            style,
            fixed_text(style, text, holder, license, current_year).unwrap(),
            holder,
            license,
            current_year,
        ) == fixed_text(style, text, holder, license, current_year),
{
    let crlf = has_crlf(text);
    let scan = Scan::start().run(style, current_year, lines_of(text)).unwrap();
    let year_start = first_year(scan, current_year);
    let once = fixed_text(style, text, holder, license, current_year).unwrap();
    let kept = scan.kept;
    let notice = style.notice(year_start, current_year, holder, license, crlf);
    let written = written_lines(style, year_start, current_year, holder, license, kept);
    lemma_file_scan_tidy(style, text, current_year);
    lemma_written_plain(style, year_start, current_year, holder, license, kept);
    lemma_assemble_lines(style, year_start, current_year, holder, license, kept, crlf);
    assert(once == join_lines(written, crlf));
    // the second run reads the lines that the first wrote
    if !crlf {
        assert forall|i: int| 0 <= i < written.len() implies !ends_in_cr(#[trigger] written[i]) by {
            if ends_in_cr(written[i]) {
                lemma_join_cr(written, i);
            }
        }
    }
    lemma_lines_of_join(written, crlf);
    assert(lines_of(once) == written);
    // it takes out the notice and keeps every other line
    lemma_scan_written(style, year_start, current_year, holder, license, kept);
    // so the notice and the lines behind it are the same
    lemma_assemble_blank(style, notice, kept, crlf);
}

/// A file that was rewritten passes the check, for a holder and a license
/// that hold neither a line feed nor a carriage return.
pub proof fn lemma_fixed_file_passes(
    style: Format,
    text: Seq<char>,
    holder: Seq<char>,
    license: Seq<char>,
    current_year: u32,
)
    requires
        plain_text(holder),
        plain_text(license),
        fixed_text(style, text, holder, license, current_year) is Ok,
    ensures
        check_outcome(
            style,
            fixed_text(style, text, holder, license, current_year).unwrap(),
            holder,
            license,
            current_year,
        ) == Ok::<(), CheckFault>(()),
{
    let crlf = has_crlf(text);
    let scan = Scan::start().run(style, current_year, lines_of(text)).unwrap();
    let year_start = first_year(scan, current_year);
    let fixed = fixed_text(style, text, holder, license, current_year).unwrap();
    let notice = style.notice(year_start, current_year, holder, license, crlf);
    let rest = separator(style, scan.kept, crlf) + join_lines(scan.kept, crlf);
    lemma_file_scan_tidy(style, text, current_year);
    assert(fixed =~= notice + rest);
    lemma_rendered_notice_passes(style, year_start, current_year, holder, license, crlf, rest);
}

/// A second run of a job changes nothing. The file that a job in fix mode
/// rewrote passes the check, so that the same job, in either mode, leaves it
/// as it is. This holds for a holder and a license that hold neither a line
/// feed nor a carriage return.
pub proof fn lemma_job_settles(
    style: Format,
    text: Seq<char>,
    holder: Seq<char>,
    license: Seq<char>,
    fix: bool,
    current_year: u32,
)
    requires
        plain_text(holder),
        plain_text(license),
        job_verdict(style, text, holder, license, true, current_year) is Rewritten,
    ensures
        job_verdict(
            style,
            job_verdict(style, text, holder, license, true, current_year)->Rewritten_0,
            holder,
            license,
            fix,
            current_year,
        ) == Verdict::Passed,
{
    lemma_fixed_file_passes(style, text, holder, license, current_year);
}

} // verus!
