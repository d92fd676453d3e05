//! The two comment styles of a license notice, and the lines of a notice.

use crate::lines::{eol, push_eol};
use crate::order::{compare_text, lemma_lex_irreflexive, lemma_lex_transitive, lex_lt, Order};
use crate::text::{decimal_digits, match_prefix, push_decimal, text_has_prefix};
use vstd::prelude::*;
use vstd::slice::slice_subrange;
use vstd::string::StrSliceExecFns;
use vstd::string::StringExecFns;

verus! {

/// The comment style of a license notice.
#[derive(Debug, Clone, Copy, PartialEq, Eq, Structural)]
pub enum Format {
    /// The `// ...` format
    SlashSlash,
    /// The `# ...` format
    Hash,
}

/// The file extensions whose notice is written in the `#` style, in
/// lexicographic order.
pub open spec fn hash_extensions() -> Seq<Seq<char>> {
    seq![
        "bash"@,
        "ini"@,
        "mk"@,
        "php"@,
        "phtml"@,
        "pl"@,
        "pm"@,
        "ps1"@,
        "psd1"@,
        "psm1"@,
        "py"@,
        "r"@,
        "rb"@,
        "sh"@,
        "tcl"@,
        "toml"@,
        "yaml"@,
        "yml"@,
        "zsh"@,
    ]
}

/// The file extensions whose notice is written in the `#` style.
pub fn hash_format_extensions() -> (list: Vec<&'static str>)
    ensures
        list@.len() == hash_extensions().len(),
        forall|i: int| 0 <= i < list@.len() ==> (#[trigger] list@[i])@ == hash_extensions()[i],
{
    vec![
        "bash", "ini", "mk", "php", "phtml", "pl", "pm", "ps1", "psd1", "psm1", "py", "r", "rb",
        "sh", "tcl", "toml", "yaml", "yml", "zsh",
    ]
}

proof fn lemma_neighbours_ascend(i: int)
    requires
        0 <= i < hash_extensions().len() - 1,
    ensures
        lex_lt(hash_extensions()[i], hash_extensions()[i + 1]),
{
    reveal_strlit("bash");
    reveal_strlit("ini");
    reveal_strlit("mk");
    reveal_strlit("php");
    reveal_strlit("phtml");
    reveal_strlit("pl");
    reveal_strlit("pm");
    reveal_strlit("ps1");
    reveal_strlit("psd1");
    reveal_strlit("psm1");
    reveal_strlit("py");
    reveal_strlit("r");
    reveal_strlit("rb");
    reveal_strlit("sh");
    reveal_strlit("tcl");
    reveal_strlit("toml");
    reveal_strlit("yaml");
    reveal_strlit("yml");
    reveal_strlit("zsh");
    reveal_with_fuel(lex_lt, 4);
}

/// The list of `#`-style extensions is strictly ascending: each entry stands
/// before every later one in the lexicographic order.
pub proof fn lemma_hash_extensions_sorted(i: int, j: int)
    requires
        0 <= i < j < hash_extensions().len(),
    ensures
        lex_lt(hash_extensions()[i], hash_extensions()[j]),
    decreases j - i,
{
    if j == i + 1 {
        lemma_neighbours_ascend(i);
    } else {
        lemma_hash_extensions_sorted(i, j - 1);
        lemma_neighbours_ascend(j - 1);
        lemma_lex_transitive(
            hash_extensions()[i],
            hash_extensions()[j - 1],
            hash_extensions()[j],
        );
    }
}

/// Whether `ext` holds no dot and stands in `path` directly behind a dot.
pub open spec fn follows_dot(path: Seq<char>, ext: Seq<char>) -> bool {
    &&& !ext.contains('.')
    &&& exists|i: int|
        0 < i && i + ext.len() <= path.len() && path[i - 1] == '.' && #[trigger] path.subrange(
            i,
            i + ext.len(),
        ) == ext
}

/// The extension of a path, as `std::path::Path::extension` finds it;
/// nothing for a path without one.
pub uninterp spec fn extension_of(path: Seq<char>) -> Option<Seq<char>>;

/// The extension of a path, from `std::path::Path::extension`. The result
/// depends on the path alone. std documents the extension as the part of
/// the file name behind its last dot, so it holds no dot and stands in the
/// path behind one.
#[verifier::external_body]
fn path_extension(path: &str) -> (r: Option<String>)
    ensures
        match r {
            Some(ext) => extension_of(path@) == Some(ext@),
            None => extension_of(path@) is None,
        },
        r matches Some(ext) ==> follows_dot(path@, ext@),
{
    match std::path::Path::new(path).extension() {
        Some(ext) => match ext.to_str() {
            Some(ext) => Some(ext.to_owned()),
            None => None,
        },
        None => None,
    }
}

impl Format {
    /// The style of a file with the given extension: `#` for the extensions
    /// of `hash_extensions`, `//` for every other.
    pub open spec fn of_extension(ext: Seq<char>) -> Format {
        if hash_extensions().contains(ext) {
            Format::Hash
        } else {
            Format::SlashSlash
        }
    }

    /// The style for a file extension, found by binary search in the sorted
    /// list of `#`-style extensions.
    pub fn from_extension(ext: &str) -> (r: Format)
        ensures
            r == Format::of_extension(ext@),
            r == Format::Hash <==> hash_extensions().contains(ext@),
    {
        let list = hash_format_extensions();
        let mut lo: usize = 0;
        let mut hi: usize = list.len();
        while lo < hi
            invariant
                lo <= hi <= list@.len(),
                list@.len() == hash_extensions().len(),
                forall|i: int| 0 <= i < list@.len() ==> (#[trigger] list@[i])@ == hash_extensions()[i],
                forall|i: int| 0 <= i < lo ==> lex_lt(#[trigger] hash_extensions()[i], ext@),
                forall|i: int| hi <= i < list@.len() ==> lex_lt(ext@, #[trigger] hash_extensions()[i]),
            decreases hi - lo,
        {
            let mid: usize = lo + (hi - lo) / 2;
            let probe = list[mid];
            assert(probe@ == hash_extensions()[mid as int]);
            match compare_text(probe, ext) {
                Order::Same => {
                    assert(hash_extensions()[mid as int] == ext@);
                    return Format::Hash;
                },
                Order::Before => {
                    assert forall|i: int| 0 <= i < mid + 1 implies lex_lt(
                        #[trigger] hash_extensions()[i],
                        ext@,
                    ) by {
                        if i < mid {
                            lemma_hash_extensions_sorted(i, mid as int);
                            lemma_lex_transitive(hash_extensions()[i], probe@, ext@);
                        }
                    }
                    lo = mid + 1;
                },
                Order::After => {
                    assert forall|i: int| mid <= i < list@.len() implies lex_lt(
                        ext@,
                        #[trigger] hash_extensions()[i],
                    ) by {
                        if i > mid {
                            lemma_hash_extensions_sorted(mid as int, i);
                            lemma_lex_transitive(ext@, probe@, hash_extensions()[i]);
                        }
                    }
                    hi = mid;
                },
            }
        }
        proof {
            lemma_lex_irreflexive(ext@);
            assert forall|i: int| 0 <= i < hash_extensions().len() implies hash_extensions()[i]
                != ext@ by {
                if i < lo {
                    assert(lex_lt(hash_extensions()[i], ext@));
                } else {
                    assert(lex_lt(ext@, hash_extensions()[i]));
                }
            }
        }
        Format::SlashSlash
    }

    /// The style of the file at a path: that of its extension, and `//` for
    /// a path without one.
    pub open spec fn of_path(path: Seq<char>) -> Format {
        match extension_of(path) {
            Some(ext) => Format::of_extension(ext),
            None => Format::SlashSlash,
        }
    }

    /// The style for a file path: that of its extension, and `//` for a path
    /// without one. The `#` style is only for a path in which one of the
    /// `#`-style extensions stands behind a dot.
    pub fn from_path(path: &str) -> (r: Format)
        ensures
            r == Format::of_path(path@),
            r == Format::Hash ==> exists|i: int|
                0 <= i < hash_extensions().len() && follows_dot(
                    path@,
                    #[trigger] hash_extensions()[i],
                ),
    {
        match path_extension(path) {
            Some(ext) => {
                let r = Format::from_extension(ext.as_str());
                proof {
                    if r == Format::Hash {
                        let i = hash_extensions().index_of(ext@);
                        assert(hash_extensions()[i] == ext@);
                    }
                }
                r
            },
            None => Format::SlashSlash,
        }
    }

    /// What a license line starts with.
    pub open spec fn license_prefix(self) -> Seq<char> {
        match self {
            Format::SlashSlash => "// SPDX-License-Identifier: "@,
            Format::Hash => "# SPDX-License-Identifier: "@,
        }
    }

    /// What a copyright line starts with.
    pub open spec fn copyright_prefix(self) -> Seq<char> {
        match self {
            Format::SlashSlash => "// Copyright (c) "@,
            Format::Hash => "# Copyright (c) "@,
        }
    }

    /// What a sentinel line starts with.
    pub open spec fn sentinel_prefix(self) -> Seq<char> {
        match self {
            Format::SlashSlash => "// * * * * *"@,
            Format::Hash => "# * * * * *"@,
        }
    }

    /// The license identifier of a license line; nothing for any other line.
    pub open spec fn license_of(self, line: Seq<char>) -> Option<Seq<char>> {
        if self.license_prefix().is_prefix_of(line) {
            Some(line.skip(self.license_prefix().len() as int))
        } else {
            None
        }
    }

    /// The years and holder of a copyright line, as they are written;
    /// nothing for any other line.
    pub open spec fn copyright_of(self, line: Seq<char>) -> Option<Seq<char>> {
        if self.copyright_prefix().is_prefix_of(line) {
            Some(line.skip(self.copyright_prefix().len() as int))
        } else {
            None
        }
    }

    /// Whether a line is a sentinel line: it starts with the sentinel comment.
    pub open spec fn is_sentinel(self, line: Seq<char>) -> bool {
        self.sentinel_prefix().is_prefix_of(line)
    }

    /// What a license line starts with.
    pub fn license_tag(self) -> (s: &'static str)
        ensures
            s@ == self.license_prefix(),
    {
        match self {
            Format::SlashSlash => "// SPDX-License-Identifier: ",
            Format::Hash => "# SPDX-License-Identifier: ",
        }
    }

    /// What a copyright line starts with.
    pub fn copyright_tag(self) -> (s: &'static str)
        ensures
            s@ == self.copyright_prefix(),
    {
        match self {
            Format::SlashSlash => "// Copyright (c) ",
            Format::Hash => "# Copyright (c) ",
        }
    }

    /// What a sentinel line starts with.
    pub fn sentinel_tag(self) -> (s: &'static str)
        ensures
            s@ == self.sentinel_prefix(),
    {
        match self {
            Format::SlashSlash => "// * * * * *",
            Format::Hash => "# * * * * *",
        }
    }

    /// The license identifier of a license line.
    pub fn license_in<'a>(self, line: &'a [char]) -> (r: Option<&'a [char]>)
        ensures
            match r {
                Some(id) => self.license_of(line@) == Some(id@),
                None => self.license_of(line@) is None,
            },
    {
        strip_prefix(line, self.license_tag())
    }

    /// The years and holder of a copyright line, as they are written.
    pub fn copyright_in<'a>(self, line: &'a [char]) -> (r: Option<&'a [char]>)
        ensures
            match r {
                Some(info) => self.copyright_of(line@) == Some(info@),
                None => self.copyright_of(line@) is None,
            },
    {
        strip_prefix(line, self.copyright_tag())
    }

    /// Whether a line is a sentinel line.
    pub fn sentinel_in(self, line: &[char]) -> (r: bool)
        ensures
            r == self.is_sentinel(line@),
    {
        match_prefix(line, self.sentinel_tag()).is_some()
    }

    /// Strip the license line if it's the right format.
    /// Return the SPDX id
    pub fn check_strip_license_line<'a>(self, line: &'a str) -> (r: Option<&'a str>)
        ensures
            match r {
                Some(id) => self.license_of(line@) == Some(id@),
                None => self.license_of(line@) is None,
            },
    {
        strip_str_prefix(line, self.license_tag())
    }

    /// Strip the copyright line if it's the right format.
    /// Return "YYYY[-YYYY] HOLDER"
    pub fn check_strip_copyright_line<'a>(self, line: &'a str) -> (r: Option<&'a str>)
        ensures
            match r {
                Some(info) => self.copyright_of(line@) == Some(info@),
                None => self.copyright_of(line@) is None,
            },
    {
        strip_str_prefix(line, self.copyright_tag())
    }

    /// Check if the line starts with sentinel comment
    pub fn starts_with_sentinel(self, line: &str) -> (r: bool)
        ensures
            r == self.is_sentinel(line@),
    {
        text_has_prefix(line, self.sentinel_tag())
    }

    /// The years of a notice as they are written: the first year alone where
    /// it is the current year, else the first year, a hyphen and the current
    /// year.
    pub open spec fn years_text(year_start: u32, current_year: u32) -> Seq<char> {
        if year_start == current_year {
            decimal_digits(year_start as nat)
        } else {
            decimal_digits(year_start as nat) + seq!['-'] + decimal_digits(current_year as nat)
        }
    }

    /// The license line of a notice, without its line ending.
    pub open spec fn license_line(self, license: Seq<char>) -> Seq<char> {
        self.license_prefix() + license
    }

    /// The copyright line of a notice, without its line ending.
    pub open spec fn copyright_line(
        self,
        year_start: u32,
        current_year: u32,
        holder: Seq<char>,
    ) -> Seq<char> {
        self.copyright_prefix() + Self::years_text(year_start, current_year) + seq![' '] + holder
    }

    /// The two lines of a notice, each with its line ending.
    pub open spec fn notice(
        self,
        year_start: u32,
        current_year: u32,
        holder: Seq<char>,
        license: Seq<char>,
        crlf: bool,
    ) -> Seq<char> {
        self.license_line(license) + eol(crlf) + self.copyright_line(
            year_start,
            current_year,
            holder,
        ) + eol(crlf)
    }

    /// Appends the license line of a notice, with its line ending.
    fn push_license_line(self, license: &str, crlf: bool, buf: &mut String)
        ensures
            final(buf)@ == old(buf)@ + (self.license_line(license@) + eol(crlf)),
    {
        buf.append(self.license_tag());
        buf.append(license);
        push_eol(buf, crlf);
        assert(buf@ =~= old(buf)@ + (self.license_line(license@) + eol(crlf)));
    }

    /// Appends the years of a notice.
    fn push_years(year_start: u32, current_year: u32, buf: &mut String)
        ensures
            final(buf)@ == old(buf)@ + Self::years_text(year_start, current_year),
    {
        push_decimal(buf, year_start);
        if year_start != current_year {
            proof {
                reveal_strlit("-");
            }
            buf.append("-");
            assert("-"@ =~= seq!['-']);
            push_decimal(buf, current_year);
        }
        assert(buf@ =~= old(buf)@ + Self::years_text(year_start, current_year));
    }

    /// Appends the copyright line of a notice, with its line ending.
    fn push_copyright_line(
        self,
        year_start: u32,
        current_year: u32,
        holder: &str,
        crlf: bool,
        buf: &mut String,
    )
        ensures
            final(buf)@ == old(buf)@ + (self.copyright_line(year_start, current_year, holder@)
                + eol(crlf)),
    {
        buf.append(self.copyright_tag());
        Self::push_years(year_start, current_year, buf);
        proof {
            reveal_strlit(" ");
        }
        buf.append(" ");
        assert(" "@ =~= seq![' ']);
        buf.append(holder);
        push_eol(buf, crlf);
        assert(buf@ =~= old(buf)@ + (self.copyright_line(year_start, current_year, holder@)
            + eol(crlf)));
    }

    /// Format the license notice into a buffer
    pub fn format(
        self,
        year_start: u32,
        current_year: u32,
        holder: &str,
        license: &str,
        crlf: bool,
        buf: &mut String,
    )
        ensures
            final(buf)@ == old(buf)@ + self.notice(year_start, current_year, holder@, license@, crlf),
    {
        self.push_license_line(license, crlf, buf);
        self.push_copyright_line(year_start, current_year, holder, crlf, buf);
        assert(buf@ =~= old(buf)@ + self.notice(
            year_start,
            current_year,
            holder@,
            license@,
            crlf,
        ));
    }
}

/// The rest of a line behind a prefix, where the line starts with it.
fn strip_prefix<'a>(line: &'a [char], prefix: &str) -> (r: Option<&'a [char]>)
    ensures
        match r {
            Some(rest) => prefix@.is_prefix_of(line@) && rest@ == line@.skip(prefix@.len() as int),
            None => !prefix@.is_prefix_of(line@),
        },
{
    match match_prefix(line, prefix) {
        Some(n) => Some(slice_subrange(line, n, line.len())),
        None => None,
    }
}

/// The rest of a line behind a prefix, where the line starts with it.
fn strip_str_prefix<'a>(line: &'a str, prefix: &str) -> (r: Option<&'a str>)
    ensures
        match r {
            Some(rest) => prefix@.is_prefix_of(line@) && rest@ == line@.skip(prefix@.len() as int),
            None => !prefix@.is_prefix_of(line@),
        },
{
    if text_has_prefix(line, prefix) {
        Some(line.substring_char(prefix.unicode_len(), line.unicode_len()))
    } else {
        None
    }
}

} // verus!
