//! Rewriting the notice at the top of a file.

use crate::copyright::{copyright_fields, copyright_range};
use crate::format::Format;
use crate::lines::{
    contains_crlf, eol, has_crlf, join_lines, lemma_join_push, lines_of, next_line, no_line_feed,
    plain_lines, push_eol,
};
use crate::text::{append_chars, chars_of, text_has_prefix};
use vstd::prelude::*;
use vstd::slice::slice_subrange;
use vstd::string::StringExecFns;

verus! {

/// Why a file's notice cannot be rewritten.
#[derive(Debug, Clone, Copy, PartialEq, Eq, Structural)]
pub enum FixError {
    /// A second license line stands before the sentinel.
    MultipleLicense,
    /// A second copyright line stands before the sentinel.
    MultipleCopyright,
    /// The copyright line starts in a year after the current one.
    FutureYear,
}

impl FixError {
    /// The message of the error.
    pub open spec fn text(self) -> Seq<char> {
        match self {
            FixError::MultipleLicense =>
                "multiple license line found! Consider adding a sentinel line if there are other license notices that need to be kept!"@,
            FixError::MultipleCopyright =>
                "multiple copyright line found! Consider adding a sentinel line if there are other license notices that need to be kept!"@,
            FixError::FutureYear => "copyright start year is in the future! Manual fix required."@,
        }
    }

    /// The message of the error.
    pub fn message(&self) -> (s: String)
        ensures
            s@ == self.text(),
    {
        match self {
            FixError::MultipleLicense => String::from_str(
                "multiple license line found! Consider adding a sentinel line if there are other license notices that need to be kept!",
            ),
            FixError::MultipleCopyright => String::from_str(
                "multiple copyright line found! Consider adding a sentinel line if there are other license notices that need to be kept!",
            ),
            FixError::FutureYear => String::from_str(
                "copyright start year is in the future! Manual fix required.",
            ),
        }
    }
}

/// What the pass over the lines of a file has seen so far.
pub struct Scan {
    /// A sentinel line was seen: every later line is kept as it is.
    pub sentinel: bool,
    /// The license line was taken out.
    pub license: bool,
    /// The first year of the copyright line, once that line was taken out.
    pub year_start: Option<u32>,
    /// The lines that stay, in order.
    pub kept: Seq<Seq<char>>,
}

impl Scan {
    /// The pass before its first line.
    pub open spec fn start() -> Scan {
        Scan { sentinel: false, license: false, year_start: None, kept: Seq::empty() }
    }

    /// The pass with one more line kept.
    pub open spec fn keep(self, line: Seq<char>) -> Scan {
        Scan { kept: self.kept.push(line), ..self }
    }

    /// The pass after one more line. Behind a sentinel line every line is
    /// kept. Before it, the sentinel line is kept and ends the inspection; the
    /// first license line and the first copyright line are taken out, a second
    /// of either is an error, and so is a copyright line that starts in a
    /// year after the current one; every other line is kept.
    pub open spec fn step(self, style: Format, current_year: u32, line: Seq<char>) -> Result<
        Scan,
        FixError,
    > {
        if self.sentinel {
            Ok(self.keep(line))
        } else if style.is_sentinel(line) {
            Ok(Scan { sentinel: true, ..self.keep(line) })
        } else if style.license_of(line) is Some {
            if self.license {
                Err(FixError::MultipleLicense)
            } else {
                Ok(Scan { license: true, ..self })
            }
        } else if style.copyright_of(line) is Some {
            let year_start = copyright_range(style.copyright_of(line).unwrap()).0;
            if self.year_start is Some {
                Err(FixError::MultipleCopyright)
            } else if year_start > current_year {
                Err(FixError::FutureYear)
            } else {
                Ok(Scan { year_start: Some(year_start), ..self })
            }
        } else {
            Ok(self.keep(line))
        }
    }

    /// The pass after the given lines, or the error of the first line that
    /// has one.
    pub open spec fn run(self, style: Format, current_year: u32, lines: Seq<Seq<char>>) -> Result<
        Scan,
        FixError,
    >
        decreases lines.len(),
    {
        if lines.len() == 0 {
            Ok(self)
        } else {
            match self.step(style, current_year, lines[0]) {
                Ok(next) => next.run(style, current_year, lines.drop_first()),
                Err(e) => Err(e),
            }
        }
    }
}

/// The blank line between a notice and the lines kept behind it: there is one
/// unless no line is kept or the first of them is blank or a sentinel line.
pub open spec fn separator(style: Format, kept: Seq<Seq<char>>, crlf: bool) -> Seq<char> {
    if kept.len() > 0 && !style.is_sentinel(kept[0]) && kept[0].len() > 0 {
        eol(crlf)
    } else {
        Seq::empty()
    }
}

/// A notice, the separator and the kept lines, as one text.
pub open spec fn assemble(style: Format, notice: Seq<char>, kept: Seq<Seq<char>>, crlf: bool) -> Seq<
    char,
> {
    notice + separator(style, kept, crlf) + join_lines(kept, crlf)
}

/// The rewritten text of a file, or why it cannot be rewritten. The new
/// notice starts in the first year of the copyright line that was taken out,
/// or in the current year where there was none. Every line ends as the lines
/// of the file do: with carriage return and line feed if that pair occurs
/// anywhere in the file, else with a line feed.
pub open spec fn fixed_text(
    style: Format,
    text: Seq<char>,
    holder: Seq<char>,
    license: Seq<char>,
    current_year: u32,
) -> Result<Seq<char>, FixError> {
    let crlf = has_crlf(text);
    match Scan::start().run(style, current_year, lines_of(text)) {
        Err(e) => Err(e),
        Ok(scan) => {
            let year_start = match scan.year_start {
                Some(y) => y,
                None => current_year,
            };
            Ok(
                assemble(
                    style,
                    style.notice(year_start, current_year, holder, license, crlf),
                    scan.kept,
                    crlf,
                ),
            )
        },
    }
}

/// The text of kept lines is empty only if there are none; it starts with
/// the sentinel comment only if the first line does, and with a line ending
/// only if the first line is blank.
proof fn lemma_join_head(style: Format, kept: Seq<Seq<char>>, crlf: bool)
    requires
        kept.len() > 0,
        no_line_feed(kept[0]),
    ensures
        join_lines(kept, crlf).len() > 0,
        style.is_sentinel(join_lines(kept, crlf)) == style.is_sentinel(kept[0]),
        eol(crlf).is_prefix_of(join_lines(kept, crlf)) == (kept[0].len() == 0),
{
    reveal_strlit("// * * * * *");
    reveal_strlit("# * * * * *");
    let first = kept[0];
    let rest = join_lines(kept.drop_first(), crlf);
    let all = join_lines(kept, crlf);
    let prefix = style.sentinel_prefix();
    assert(all == first + eol(crlf) + rest);
    assert(forall|i: int| 0 <= i < prefix.len() ==> prefix[i] != '\r' && prefix[i] != '\n');
    if prefix.is_prefix_of(all) {
        if prefix.len() > first.len() {
            assert(prefix[first.len() as int] == all[first.len() as int]);
            assert(all[first.len() as int] == eol(crlf)[0]);
        }
        assert(prefix =~= first.subrange(0, prefix.len() as int));
    }
    if prefix.is_prefix_of(first) {
        assert(prefix =~= all.subrange(0, prefix.len() as int));
    }
    if eol(crlf).is_prefix_of(all) && first.len() > 0 {
        if crlf {
            assert(all[1] == eol(crlf)[1]);
            if first.len() > 1 {
                assert(all[1] == first[1]);
            } else {
                assert(all[1] == eol(crlf)[0]);
            }
        } else {
            assert(all[0] == eol(crlf)[0]);
            assert(all[0] == first[0]);
        }
    }
    if first.len() == 0 {
        assert(eol(crlf) =~= all.subrange(0, eol(crlf).len() as int));
    }
}

/// The text of a file while its notice is rewritten.
struct FixBuf {
    buf: String,
    fixed: bool,
    fixed_when_empty: bool,
    crlf: bool,
    /// The lines kept so far.
    kept: Ghost<Seq<Seq<char>>>,
    /// The notice, once it was written.
    notice: Ghost<Seq<char>>,
}

impl FixBuf {
    /// The buffer holds the kept lines, behind the notice and the separator
    /// once the notice was written.
    spec fn wf(self, style: Format) -> bool {
        &&& plain_lines(self.kept@)
        &&& self.fixed_when_empty == (self.fixed && self.kept@.len() == 0)
        &&& self.buf@ == if self.fixed {
            assemble(style, self.notice@, self.kept@, self.crlf)
        } else {
            join_lines(self.kept@, self.crlf)
        }
    }

    /// An empty buffer for a file with the given line ending.
    fn new(crlf: bool) -> (r: FixBuf)
        ensures
            forall|style: Format| r.wf(style),
            r.crlf == crlf,
            !r.fixed,
            r.kept@ == Seq::<Seq<char>>::empty(),
    {
        FixBuf {
            buf: String::new(),
            fixed: false,
            fixed_when_empty: false,
            crlf,
            kept: Ghost(Seq::empty()),
            notice: Ghost(Seq::empty()),
        }
    }

    /// Adds a kept line at the end. The first line behind a notice that was
    /// written into an empty buffer is parted from it by a blank line, unless
    /// that line is blank itself or a sentinel line.
    fn push_line(&mut self, line: &[char], format: Format)
        requires
            old(self).wf(format),
            no_line_feed(line@),
        ensures
            final(self).wf(format),
            final(self).kept@ == old(self).kept@.push(line@),
            final(self).fixed == old(self).fixed,
            final(self).notice == old(self).notice,
            final(self).crlf == old(self).crlf,
    {
        let ghost kept = self.kept@;
        proof {
            lemma_join_push(kept, line@, self.crlf);
            if kept.len() == 0 {
                assert(join_lines(kept, self.crlf) == Seq::<char>::empty());
            } else {
                assert(kept.push(line@)[0] == kept[0]);
            }
        }
        if self.fixed_when_empty {
            if !format.sentinel_in(line) && line.len() > 0 {
                push_eol(&mut self.buf, self.crlf);
            }
            self.fixed_when_empty = false;
        }
        append_chars(&mut self.buf, line);
        push_eol(&mut self.buf, self.crlf);
        self.kept = Ghost(kept.push(line@));
        assert(self.buf@ =~= if self.fixed {
            assemble(format, self.notice@, self.kept@, self.crlf)
        } else {
            join_lines(self.kept@, self.crlf)
        });
    }

    /// Writes the notice in front of the kept lines, unless it was written
    /// before. A blank line parts it from them, unless there are none or the
    /// first of them is blank or a sentinel line.
    fn perform_fix_if_need(
        &mut self,
        format: Format,
        year_start: u32,
        current_year: u32,
        holder: &str,
        license: &str,
    )
        requires
            old(self).wf(format),
        ensures
            final(self).wf(format),
            final(self).fixed,
            final(self).kept == old(self).kept,
            final(self).crlf == old(self).crlf,
            final(self).notice@ == if old(self).fixed {
                old(self).notice@
            } else {
                format.notice(year_start, current_year, holder@, license@, old(self).crlf)
            },
    {
        if self.fixed {
            return;
        }
        let ghost kept = self.kept@;
        let mut current_content = String::new();
        std::mem::swap(&mut self.buf, &mut current_content);
        format.format(year_start, current_year, holder, license, self.crlf, &mut self.buf);
        let ghost notice = self.buf@;
        proof {
            if kept.len() > 0 {
                lemma_join_head(format, kept, self.crlf);
            } else {
                assert(join_lines(kept, self.crlf) == Seq::<char>::empty());
            }
        }
        // add an empty line if needed
        if !current_content.as_str().is_empty() {
            let blank = if self.crlf {
                "\r\n"
            } else {
                "\n"
            };
            proof {
                reveal_strlit("\r\n");
                reveal_strlit("\n");
                assert(blank@ =~= eol(self.crlf));
            }
            if !format.starts_with_sentinel(current_content.as_str()) && !text_has_prefix(
                current_content.as_str(),
                blank,
            ) {
                push_eol(&mut self.buf, self.crlf);
            }
        } else {
            self.fixed_when_empty = true;
        }
        self.buf.append(current_content.as_str());
        self.fixed = true;
        self.notice = Ghost(notice);
        assert(self.buf@ =~= assemble(format, notice, kept, self.crlf));
    }
}

/// Rewrites the notice at the top of a file's content for the expected
/// holder and license and the current year, and returns the new content.
pub fn fix_file(
    format: Format,
    content: &str,
    expected_holder: &str,
    expected_license: &str,
    current_year: u32,
) -> (r: Result<String, FixError>)
    ensures
        match r {
            Ok(fixed) => fixed_text(
                format,
                content@,
                expected_holder@,
                expected_license@,
                current_year,
            ) == Ok::<Seq<char>, FixError>(fixed@),
            Err(e) => fixed_text(
                format,
                content@,
                expected_holder@,
                expected_license@,
                current_year,
            ) == Err::<Seq<char>, FixError>(e),
        },
{
    let chars = chars_of(content);
    let text = chars.as_slice();
    let crlf = contains_crlf(text);
    let mut buf = FixBuf::new(crlf);

    let mut found_license_line = false;
    let mut found_copyright_line = false;
    let mut found_sentinel = false;

    let ghost mut scan = Scan::start();
    let ghost whole = Scan::start().run(format, current_year, lines_of(text@));
    let mut pos: usize = 0;
    assert(text@.skip(0) == text@);
    while pos < text.len()
        invariant
            pos <= text@.len(),
            text@ == content@,
            crlf == has_crlf(content@),
            whole == Scan::start().run(format, current_year, lines_of(text@)),
            whole == scan.run(format, current_year, lines_of(text@.skip(pos as int))),
            buf.wf(format),
            buf.crlf == crlf,
            buf.kept@ == scan.kept,
            buf.fixed == found_copyright_line,
            found_sentinel == scan.sentinel,
            found_license_line == scan.license,
            found_copyright_line == scan.year_start is Some,
            scan.year_start matches Some(y) ==> buf.notice@ == format.notice(
                y,
                current_year,
                expected_holder@,
                expected_license@,
                crlf,
            ),
        decreases text@.len() - pos,
    {
        let bounds = next_line(text, pos);
        let line = slice_subrange(text, pos, bounds.0);
        proof {
            let lines = lines_of(text@.skip(pos as int));
            assert(lines[0] == line@);
            assert(lines.drop_first() == lines_of(text@.skip(bounds.1 as int)));
        }
        pos = bounds.1;
        if found_sentinel {
            buf.push_line(line, format);
            proof {
                scan = scan.keep(line@);
            }
            continue;
        }
        if format.sentinel_in(line) {
            found_sentinel = true;
            buf.push_line(line, format);
            proof {
                scan = Scan { sentinel: true, ..scan.keep(line@) };
            }
            continue;
        }
        if format.license_in(line).is_some() {
            if found_license_line {
                return Err(FixError::MultipleLicense);
            }
            found_license_line = true;
            proof {
                scan = Scan { license: true, ..scan };
            }
            continue;
        }
        if let Some(copyright_info) = format.copyright_in(line) {
            if found_copyright_line {
                return Err(FixError::MultipleCopyright);
            }
            found_copyright_line = true;
            let fields = copyright_fields(copyright_info);
            let year_start = fields.0;
            if year_start > current_year {
                return Err(FixError::FutureYear);
            }
            buf.perform_fix_if_need(
                format,
                year_start,
                current_year,
                expected_holder,
                expected_license,
            );
            proof {
                scan = Scan { year_start: Some(year_start), ..scan };
            }
            continue;
        }
        buf.push_line(line, format);
        proof {
            scan = scan.keep(line@);
        }
    }
    assert(text@.skip(pos as int) == Seq::<char>::empty());
    // format new notice if didn't find one
    buf.perform_fix_if_need(
        format,
        current_year,
        current_year,
        expected_holder,
        expected_license,
    );
    Ok(buf.buf)
}

} // verus!
