//! Reader/writer configuration as plain values: delimiter, header and
//! quoting options, and the output path.  The delimiter follows a
//! file-extension convention: tab for `.tsv` and `.tab` files, comma
//! otherwise.  Construction of actual readers and writers from these options
//! is the collaborator's business.
use vstd::prelude::*;

verus! {

/// The record terminator written between rows.
#[derive(Clone, Copy, Debug, PartialEq, Eq, Structural)]
pub enum Terminator {
    CRLF,
    Any(u8),
}

/// When fields are quoted on output.
#[derive(Clone, Copy, Debug, PartialEq, Eq, Structural)]
pub enum QuoteStyle {
    Always,
    Necessary,
    NonNumeric,
    Never,
}

/// The bytes after the last path separator; the whole path when none occurs.
pub open spec fn file_name_of(path: Seq<u8>) -> Seq<u8>
    decreases path.len(),
{
    if path.len() == 0 {
        Seq::empty()
    } else if path.last() == 0x2Fu8 {
        Seq::empty()
    } else {
        file_name_of(path.drop_last()).push(path.last())
    }
}

/// Whether the path's file name carries a tab-delimited extension: `.tsv` or
/// `.tab`, with a non-empty stem before the dot.
pub open spec fn is_tab_path(path: Seq<u8>) -> bool {
    let name = file_name_of(path);
    name.len() >= 5 && (name.skip(name.len() - 4) == seq![0x2Eu8, 0x74u8, 0x73u8, 0x76u8]
        || name.skip(name.len() - 4) == seq![0x2Eu8, 0x74u8, 0x61u8, 0x62u8])
}

/// The delimiter the extension convention picks: tab for `.tsv`/`.tab`,
/// comma otherwise.
pub open spec fn delimiter_for(path: Seq<u8>) -> u8 {
    if is_tab_path(path) {
        9
    } else {
        44
    }
}

/// With no separator past position `s` (and one exactly there, unless `s` is
/// before the start), the file name is everything past `s`.
proof fn lemma_file_name(path: Seq<u8>, s: int)
    requires
        -1 <= s < path.len(),
        s >= 0 ==> path[s] == 0x2Fu8,
        forall|j: int| s < j < path.len() ==> path[j] != 0x2Fu8,
    ensures
        file_name_of(path) == path.skip(s + 1),
    decreases path.len(),
{
    if path.len() == 0 {
        assert(file_name_of(path) =~= path.skip(s + 1));
    } else if s == path.len() - 1 {
        assert(path.last() == 0x2Fu8);
        assert(file_name_of(path) =~= path.skip(s + 1));
    } else {
        assert(path.last() != 0x2Fu8);
        lemma_file_name(path.drop_last(), s);
        assert(file_name_of(path) == path.drop_last().skip(s + 1).push(path.last()));
        assert(file_name_of(path) =~= path.skip(s + 1));
    }
}

/// Picks the delimiter for a path by the extension convention.
pub fn delimiter_for_path(path: &Vec<u8>) -> (d: u8)
    ensures
        d == delimiter_for(path@),
{
    let n = path.len();
    let mut start: usize = 0;
    let mut i: usize = 0;
    while i < n
        invariant
            i <= n,
            n == path@.len(),
            start <= i,
            start == 0 ==> forall|j: int| 0 <= j < i ==> path@[j] != 0x2Fu8,
            start > 0 ==> path@[start - 1] == 0x2Fu8
                && (forall|j: int| start <= j < i ==> path@[j] != 0x2Fu8),
        decreases n - i,
    {
        if path[i] == 0x2Fu8 {
            start = i + 1;
        }
        i = i + 1;
    }
    proof {
        lemma_file_name(path@, start - 1);
    }
    let name_len = n - start;
    if name_len >= 5 {
        let b0 = path[n - 4];
        let b1 = path[n - 3];
        let b2 = path[n - 2];
        let b3 = path[n - 1];
        let tsv = b0 == 0x2Eu8 && b1 == 0x74u8 && b2 == 0x73u8 && b3 == 0x76u8;
        let tab = b0 == 0x2Eu8 && b1 == 0x74u8 && b2 == 0x61u8 && b3 == 0x62u8;
        proof {
            let name = file_name_of(path@);
            assert(name == path@.skip(start as int));
            assert(name.skip(name.len() - 4) =~= path@.skip(n - 4));
            if tsv {
                assert(path@.skip(n - 4) =~= seq![0x2Eu8, 0x74u8, 0x73u8, 0x76u8]);
            } else if tab {
                assert(path@.skip(n - 4) =~= seq![0x2Eu8, 0x74u8, 0x61u8, 0x62u8]);
            } else {
                assert(path@.skip(n - 4) != seq![0x2Eu8, 0x74u8, 0x73u8, 0x76u8]) by {
                    let suffix = seq![0x2Eu8, 0x74u8, 0x73u8, 0x76u8];
                    if path@.skip(n - 4) == suffix {
                        assert(path@[n - 4] == suffix[0]);
                        assert(path@[n - 3] == suffix[1]);
                        assert(path@[n - 2] == suffix[2]);
                        assert(path@[n - 1] == suffix[3]);
                    }
                }
                assert(path@.skip(n - 4) != seq![0x2Eu8, 0x74u8, 0x61u8, 0x62u8]) by {
                    let suffix = seq![0x2Eu8, 0x74u8, 0x61u8, 0x62u8];
                    if path@.skip(n - 4) == suffix {
                        assert(path@[n - 4] == suffix[0]);
                        assert(path@[n - 3] == suffix[1]);
                        assert(path@[n - 2] == suffix[2]);
                        assert(path@[n - 1] == suffix[3]);
                    }
                }
            }
        }
        if tsv || tab {
            return 9;
        }
        44
    } else {
        proof {
            assert(file_name_of(path@).len() < 5);
        }
        44
    }
}

/// Reader/writer options, as plain values.
pub struct Config {
    pub path: Option<Vec<u8>>,
    pub delimiter: u8,
    pub no_headers: bool,
    pub flexible: bool,
    pub terminator: Terminator,
    pub quote: u8,
    pub quote_style: QuoteStyle,
    pub double_quote: bool,
    pub escape: Option<u8>,
    pub quoting: bool,
}

impl Default for Config {
    /// Comma-delimited, headerless, newline-terminated, unquoted output to
    /// the standard stream.
    fn default() -> (r: Self)
        ensures
            r.path is None,
            r.delimiter == 44,
            r.no_headers,
            !r.flexible,
            r.terminator == Terminator::Any(10u8),
            r.quote == 34,
            r.quote_style == QuoteStyle::Never,
            !r.double_quote,
            r.escape is None,
            !r.quoting,
    {
        Config {
            path: None,
            delimiter: 44,
            no_headers: true,
            flexible: false,
            terminator: Terminator::Any(10),
            quote: 34,
            quote_style: QuoteStyle::Never,
            double_quote: false,
            escape: None,
            quoting: false,
        }
    }
}

impl Config {
    /// Options for the given path: `-` means the standard stream; the
    /// delimiter follows the extension convention; everything else as the
    /// default.
    pub fn new(path: &Vec<u8>) -> (r: Config)
        ensures
            path@ == seq![0x2Du8] ==> r.path is None && r.delimiter == 44,
            path@ != seq![0x2Du8] ==> (r.path matches Some(p) && p@ == path@
                && r.delimiter == delimiter_for(path@)),
            r.no_headers,
            !r.flexible,
            r.terminator == Terminator::Any(10u8),
            r.quote == 34,
            r.quote_style == QuoteStyle::Never,
            !r.double_quote,
            r.escape is None,
            !r.quoting,
    {
        let is_stdio = path.len() == 1 && path[0] == 0x2Du8;
        proof {
            if is_stdio {
                assert(path@ =~= seq![0x2Du8]);
            } else {
                if path@ == seq![0x2Du8] {
                    assert(path@.len() == 1 && path@[0] == 0x2Du8);
                }
            }
        }
        if is_stdio {
            Config { path: None, delimiter: 44, ..Config::default() }
        } else {
            let delimiter = delimiter_for_path(path);
            let mut copy: Vec<u8> = Vec::new();
            let mut i: usize = 0;
            while i < path.len()
                invariant
                    i <= path@.len(),
                    copy@ == path@.take(i as int),
                decreases path@.len() - i,
            {
                copy.push(path[i]);
                i = i + 1;
                proof {
                    assert(copy@ =~= path@.take(i as int));
                }
            }
            proof {
                assert(copy@ =~= path@);
            }
            Config { path: Some(copy), delimiter, ..Config::default() }
        }
    }

    /// Replaces the delimiter.
    pub fn delimiter(self, delimiter: u8) -> (r: Config)
        ensures
            r == (Config { delimiter, ..self }),
    {
        Config { delimiter, ..self }
    }

    /// Sets whether the input has no header row.
    pub fn no_headers(self, yes: bool) -> (r: Config)
        ensures
            r == (Config { no_headers: yes, ..self }),
    {
        Config { no_headers: yes, ..self }
    }

    /// Sets whether records of uneven width are accepted.
    pub fn flexible(self, yes: bool) -> (r: Config)
        ensures
            r == (Config { flexible: yes, ..self }),
    {
        Config { flexible: yes, ..self }
    }

    /// Chooses between a CRLF terminator and a bare newline.
    pub fn crlf(self, yes: bool) -> (r: Config)
        ensures
            yes ==> r == (Config { terminator: Terminator::CRLF, ..self }),
            !yes ==> r == (Config { terminator: Terminator::Any(10u8), ..self }),
    {
        if yes {
            Config { terminator: Terminator::CRLF, ..self }
        } else {
            Config { terminator: Terminator::Any(10), ..self }
        }
    }

    /// Replaces the record terminator.
    pub fn terminator(self, terminator: Terminator) -> (r: Config)
        ensures
            r == (Config { terminator, ..self }),
    {
        Config { terminator, ..self }
    }

    /// Replaces the quote byte.
    pub fn quote(self, quote: u8) -> (r: Config)
        ensures
            r == (Config { quote, ..self }),
    {
        Config { quote, ..self }
    }

    /// Replaces the quoting style.
    pub fn quote_style(self, quote_style: QuoteStyle) -> (r: Config)
        ensures
            r == (Config { quote_style, ..self }),
    {
        Config { quote_style, ..self }
    }

    /// Sets whether quotes are doubled inside quoted fields.
    pub fn double_quote(self, yes: bool) -> (r: Config)
        ensures
            r == (Config { double_quote: yes, ..self }),
    {
        Config { double_quote: yes, ..self }
    }

    /// Replaces the escape byte.
    pub fn escape(self, escape: Option<u8>) -> (r: Config)
        ensures
            r == (Config { escape, ..self }),
    {
        Config { escape, ..self }
    }

    /// Sets whether quoting is honoured at all.
    pub fn quoting(self, yes: bool) -> (r: Config)
        ensures
            r == (Config { quoting: yes, ..self }),
    {
        Config { quoting: yes, ..self }
    }

    /// Whether output goes to the standard stream rather than a file.
    pub fn is_stdout(&self) -> (r: bool)
        ensures
            r == (self.path is None),
    {
        self.path.is_none()
    }
}

} // verus!
