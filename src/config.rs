//! Options of the line-oriented search that consumes expanded patterns.

use vstd::prelude::*;

verus! {

/// When search output is colored.
#[derive(Clone, Copy, Debug, PartialEq, Eq, Structural)]
pub enum ColorMode {
    Never,
    Auto,
    Always,
}

impl Default for ColorMode {
    fn default() -> (r: Self)
        ensures
            r == ColorMode::Auto,
    {
        ColorMode::Auto
    }
}

/// The search options as plain values.
pub struct ConfigView {
    pub after_context: usize,
    pub before_context: usize,
    pub color: ColorMode,
    pub binary: bool,
    pub bom_sniffing: bool,
    pub case_insensitive: bool,
    pub encoding: Option<Seq<char>>,
    pub only_matching: bool,
    pub ignore_whitespace: bool,
    pub invert_match: bool,
    pub passthru: bool,
    pub line_number: bool,
    pub mmap: bool,
    pub multi_line: bool,
    pub max_matches: Option<u64>,
}

/// The text of an optional string.
pub open spec fn opt_str_view(e: Option<&str>) -> Option<Seq<char>> {
    match e {
        Some(s) => Some(s@),
        None => None,
    }
}

/// Options of a search: of the matcher, the searcher and the printer.
#[derive(Clone, Copy)]
pub struct Config<'main> {
    /// The number of lines after a match to include.
    after_context: usize,
    /// The number of lines before a match to include.
    before_context: usize,
    /// When output is colored.
    color: ColorMode,
    /// Whether searching stops at binary data.
    binary: bool,
    /// Whether input is transcoded by its byte order mark.
    bom_sniffing: bool,
    /// Whether matching ignores case.
    case_insensitive: bool,
    /// The encoding input is transcoded from, when there is one.
    encoding: Option<&'main str>,
    /// Whether only the matched parts are printed, not whole lines.
    pub only_matching: bool,
    /// Whether whitespace in the pattern is ignored.
    ignore_whitespace: bool,
    /// Whether non-matching lines are reported instead.
    invert_match: bool,
    /// Whether every line is printed, matching or not.
    passthru: bool,
    /// Whether line numbers are counted.
    line_number: bool,
    /// Whether files may be memory mapped.
    mmap: bool,
    /// Whether a match may span lines.
    multi_line: bool,
    /// The most matching lines printed per file, when capped.
    pub max_matches: Option<u64>,
}

impl<'main> View for Config<'main> {
    type V = ConfigView;

    closed spec fn view(&self) -> ConfigView {
        ConfigView {
            after_context: self.after_context,
            before_context: self.before_context,
            color: self.color,
            binary: self.binary,
            bom_sniffing: self.bom_sniffing,
            case_insensitive: self.case_insensitive,
            encoding: opt_str_view(self.encoding),
            only_matching: self.only_matching,
            ignore_whitespace: self.ignore_whitespace,
            invert_match: self.invert_match,
            passthru: self.passthru,
            line_number: self.line_number,
            mmap: self.mmap,
            multi_line: self.multi_line,
            max_matches: self.max_matches,
        }
    }
}

impl<'main> Default for Config<'main> {
    fn default() -> (r: Self)
        ensures
            r@ == Config::<'main>::initial(),
    {
        Config::new()
    }
}

impl<'main> Config<'main> {
    /// The options of a fresh configuration: no context, automatic color,
    /// every switch off, nothing capped.
    pub open spec fn initial() -> ConfigView {
        ConfigView {
            after_context: 0,
            before_context: 0,
            color: ColorMode::Auto,
            binary: false,
            bom_sniffing: false,
            case_insensitive: false,
            encoding: None,
            only_matching: false,
            ignore_whitespace: false,
            invert_match: false,
            passthru: false,
            line_number: false,
            mmap: false,
            multi_line: false,
            max_matches: None,
        }
    }

    /// A fresh configuration.
    pub fn new() -> (r: Self)
        ensures
            r@ == Self::initial(),
    {
        Config {
            after_context: 0,
            before_context: 0,
            color: ColorMode::Auto,
            binary: false,
            bom_sniffing: false,
            case_insensitive: false,
            encoding: None,
            only_matching: false,
            ignore_whitespace: false,
            invert_match: false,
            passthru: false,
            line_number: false,
            mmap: false,
            multi_line: false,
            max_matches: None,
        }
    }

    /// A copy of the configuration as it stands.
    pub fn build(&mut self) -> (r: Self)
        ensures
            r@ == old(self)@,
            final(self)@ == old(self)@,
    {
        *self
    }

    /// Sets: the number of lines after a match to include.
    pub fn after_context(&mut self, num: usize) -> (r: &mut Self)
        ensures
            r@ == (ConfigView { after_context: num, ..old(self)@ }),
            final(self)@ == final(r)@,
    {
        self.after_context = num;
        self
    }

    /// Sets: the number of lines before a match to include.
    pub fn before_context(&mut self, num: usize) -> (r: &mut Self)
        ensures
            r@ == (ConfigView { before_context: num, ..old(self)@ }),
            final(self)@ == final(r)@,
    {
        self.before_context = num;
        self
    }

    /// Sets: when output is colored.
    pub fn color(&mut self, color_mode: ColorMode) -> (r: &mut Self)
        ensures
            r@ == (ConfigView { color: color_mode, ..old(self)@ }),
            final(self)@ == final(r)@,
    {
        self.color = color_mode;
        self
    }

    /// Sets: whether searching stops at binary data.
    pub fn binary(&mut self, yes: bool) -> (r: &mut Self)
        ensures
            r@ == (ConfigView { binary: yes, ..old(self)@ }),
            final(self)@ == final(r)@,
    {
        self.binary = yes;
        self
    }

    /// Sets: whether input is transcoded by its byte order mark.
    pub fn bom_sniffing(&mut self, yes: bool) -> (r: &mut Self)
        ensures
            r@ == (ConfigView { bom_sniffing: yes, ..old(self)@ }),
            final(self)@ == final(r)@,
    {
        self.bom_sniffing = yes;
        self
    }

    /// Sets: whether matching ignores case.
    pub fn case_insensitive(&mut self, yes: bool) -> (r: &mut Self)
        ensures
            r@ == (ConfigView { case_insensitive: yes, ..old(self)@ }),
            final(self)@ == final(r)@,
    {
        self.case_insensitive = yes;
        self
    }

    /// Sets: the encoding input is transcoded from, when there is one.
    pub fn encoding(&mut self, enc: &'main str) -> (r: &mut Self)
        ensures
            r@ == (ConfigView { encoding: opt_str_view(Some(enc)), ..old(self)@ }),
            final(self)@ == final(r)@,
    {
        self.encoding = Some(enc);
        self
    }

    /// Sets: whether only the matched parts are printed, not whole lines.
    pub fn only_matching(&mut self, yes: bool) -> (r: &mut Self)
        ensures
            r@ == (ConfigView { only_matching: yes, ..old(self)@ }),
            final(self)@ == final(r)@,
    {
        self.only_matching = yes;
        self
    }

    /// Sets: whether whitespace in the pattern is ignored.
    pub fn ignore_whitespace(&mut self, yes: bool) -> (r: &mut Self)
        ensures
            r@ == (ConfigView { ignore_whitespace: yes, ..old(self)@ }),
            final(self)@ == final(r)@,
    {
        self.ignore_whitespace = yes;
        self
    }

    /// Sets: whether non-matching lines are reported instead.
    pub fn invert_match(&mut self, yes: bool) -> (r: &mut Self)
        ensures
            r@ == (ConfigView { invert_match: yes, ..old(self)@ }),
            final(self)@ == final(r)@,
    {
        self.invert_match = yes;
        self
    }

    /// Sets: whether every line is printed, matching or not.
    pub fn passthru(&mut self, yes: bool) -> (r: &mut Self)
        ensures
            r@ == (ConfigView { passthru: yes, ..old(self)@ }),
            final(self)@ == final(r)@,
    {
        self.passthru = yes;
        self
    }

    /// Sets: whether line numbers are counted.
    pub fn line_number(&mut self, yes: bool) -> (r: &mut Self)
        ensures
            r@ == (ConfigView { line_number: yes, ..old(self)@ }),
            final(self)@ == final(r)@,
    {
        self.line_number = yes;
        self
    }

    /// Sets: whether files may be memory mapped.
    pub fn mmap(&mut self, yes: bool) -> (r: &mut Self)
        ensures
            r@ == (ConfigView { mmap: yes, ..old(self)@ }),
            final(self)@ == final(r)@,
    {
        self.mmap = yes;
        self
    }

    /// Sets: whether a match may span lines.
    pub fn multi_line(&mut self, yes: bool) -> (r: &mut Self)
        ensures
            r@ == (ConfigView { multi_line: yes, ..old(self)@ }),
            final(self)@ == final(r)@,
    {
        self.multi_line = yes;
        self
    }

    /// Sets: the most matching lines printed per file, when capped.
    pub fn max_matches(&mut self, num: u64) -> (r: &mut Self)
        ensures
            r@ == (ConfigView { max_matches: Some(num), ..old(self)@ }),
            final(self)@ == final(r)@,
    {
        self.max_matches = Some(num);
        self
    }
    /// The value set for `after_context`.
    pub fn get_after_context(&self) -> (r: usize)
        ensures
            r == self@.after_context,
    {
        self.after_context
    }

    /// The value set for `before_context`.
    pub fn get_before_context(&self) -> (r: usize)
        ensures
            r == self@.before_context,
    {
        self.before_context
    }

    /// The value set for `binary`.
    pub fn get_binary(&self) -> (r: bool)
        ensures
            r == self@.binary,
    {
        self.binary
    }

    /// The value set for `case_insensitive`.
    pub fn get_case_insensitive(&self) -> (r: bool)
        ensures
            r == self@.case_insensitive,
    {
        self.case_insensitive
    }

    /// The value set for `ignore_whitespace`.
    pub fn get_ignore_whitespace(&self) -> (r: bool)
        ensures
            r == self@.ignore_whitespace,
    {
        self.ignore_whitespace
    }

    /// The value set for `line_number`.
    pub fn get_line_number(&self) -> (r: bool)
        ensures
            r == self@.line_number,
    {
        self.line_number
    }

    /// The value set for `multi_line`.
    pub fn get_multi_line(&self) -> (r: bool)
        ensures
            r == self@.multi_line,
    {
        self.multi_line
    }
}

} // verus!
