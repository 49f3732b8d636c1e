//! The TLPDB catalog parser.
//!
//! The catalog is line-oriented text: blocks separated by blank lines,
//! one directive per line.  `runfiles`, `binfiles` and `longdesc` open a
//! sub-block whose continuation lines begin with whitespace.  The grammar
//! is written down as spec functions over `Seq<char>`; the executable
//! parser is proved to compute exactly that interpretation.

use vstd::prelude::*;
use vstd::string::StrSliceExecFns;
use vstd::string::StringExecFns;
use crate::pkg::{Package, PackageView, spec_default_url, default_url};
use crate::index::{PackageIndex, spec_find};
use crate::strutil::{
    is_space_char, spec_trim, spec_starts_with, char_is_space, str_trim, str_starts_with,
    str_skip, str_eq,
};
use rayon::iter::IntoParallelRefIterator;
use rayon::iter::ParallelIterator;

verus! {

/// Split on a single separator character; `acc` is the piece read so far.
pub open spec fn spec_split_char_from(s: Seq<char>, sep: char, acc: Seq<char>) -> Seq<
    Seq<char>,
>
    decreases s.len(),
{
    if s.len() == 0 {
        seq![acc]
    } else if s[0] == sep {
        seq![acc] + spec_split_char_from(s.drop_first(), sep, Seq::empty())
    } else {
        spec_split_char_from(s.drop_first(), sep, acc.push(s[0]))
    }
}

pub open spec fn spec_split_char(s: Seq<char>, sep: char) -> Seq<Seq<char>> {
    spec_split_char_from(s, sep, Seq::empty())
}

/// The lines of a block.
pub open spec fn spec_split_lines(s: Seq<char>) -> Seq<Seq<char>> {
    spec_split_char(s, '\n')
}

/// Split on each leftmost occurrence of a blank line (two newlines).
pub open spec fn spec_split_blocks_from(s: Seq<char>, acc: Seq<char>) -> Seq<Seq<char>>
    decreases s.len(),
{
    if s.len() == 0 {
        seq![acc]
    } else if s.len() >= 2 && s[0] == '\n' && s[1] == '\n' {
        seq![acc] + spec_split_blocks_from(s.skip(2), Seq::empty())
    } else {
        spec_split_blocks_from(s.drop_first(), acc.push(s[0]))
    }
}

/// The blocks of a catalog.
pub open spec fn spec_split_blocks(s: Seq<char>) -> Seq<Seq<char>> {
    spec_split_blocks_from(s, Seq::empty())
}

/// Trim every comma-separated piece and drop the empty ones.
pub open spec fn spec_csv_pieces(ps: Seq<Seq<char>>) -> Seq<Seq<char>>
    decreases ps.len(),
{
    if ps.len() == 0 {
        Seq::empty()
    } else {
        spec_csv_pieces(ps.drop_last()) + (if spec_trim(ps.last()).len() > 0 {
            seq![spec_trim(ps.last())]
        } else {
            Seq::empty()
        })
    }
}

/// A `depends` payload: comma-separated names, trimmed, empties ignored.
pub open spec fn spec_parse_csv(s: Seq<char>) -> Seq<Seq<char>> {
    spec_csv_pieces(spec_split_char(s, ','))
}

/// Lines joined back with a newline, as a long description is stored.
pub open spec fn spec_join_nl(ls: Seq<Seq<char>>) -> Seq<char>
    decreases ls.len(),
{
    if ls.len() == 0 {
        Seq::empty()
    } else if ls.len() == 1 {
        ls[0]
    } else {
        spec_join_nl(ls.drop_last()) + seq!['\n'] + ls.last()
    }
}

/// Which sub-block, if any, is open while a block is read.
#[derive(PartialEq, Eq, Structural, Clone, Copy)]
pub enum BlockMode {
    Top,
    Run,
    Bin,
    Long,
}

/// The parser's state between lines of one block.
#[verifier::ext_equal]
pub struct ParseState {
    pub name: Seq<char>,
    pub revision: Seq<char>,
    pub url: Seq<char>,
    pub depends: Seq<Seq<char>>,
    pub runfiles: Seq<Seq<char>>,
    pub binfiles: Seq<Seq<char>>,
    pub description: Option<Seq<char>>,
    pub longdesc: Option<Seq<char>>,
    pub mode: BlockMode,
    pub acc: Seq<Seq<char>>,
}

pub open spec fn spec_init_state() -> ParseState {
    ParseState {
        name: Seq::empty(),
        revision: "unknown"@,
        url: Seq::empty(),
        depends: Seq::empty(),
        runfiles: Seq::empty(),
        binfiles: Seq::empty(),
        description: None,
        longdesc: None,
        mode: BlockMode::Top,
        acc: Seq::empty(),
    }
}

/// Closing an open long description: the accumulated lines become the
/// description, joined with newlines.
pub open spec fn spec_close_long(st: ParseState) -> ParseState {
    if st.mode is Long {
        ParseState {
            longdesc: Some(spec_join_nl(st.acc)),
            mode: BlockMode::Top,
            acc: Seq::empty(),
            ..st
        }
    } else {
        st
    }
}

/// A continuation line: it begins with whitespace and is not blank.
pub open spec fn spec_is_continuation(raw: Seq<char>) -> bool {
    raw.len() > 0 && is_space_char(raw[0]) && spec_trim(raw).len() > 0
}

/// One line of a block applied to the parser state.  While a sub-block is
/// open, continuation lines feed it; any other line closes an open long
/// description and is then read as a directive; unrecognized lines are
/// ignored.
pub open spec fn spec_step_line(st: ParseState, raw: Seq<char>) -> ParseState {
    let t = spec_trim(raw);
    if st.mode is Long && spec_is_continuation(raw) {
        ParseState { acc: st.acc.push(t), ..st }
    } else if st.mode is Run && spec_is_continuation(raw) {
        ParseState { runfiles: st.runfiles.push(t), ..st }
    } else if st.mode is Bin && spec_is_continuation(raw) {
        ParseState { binfiles: st.binfiles.push(t), ..st }
    } else {
        let st1 = spec_close_long(st);
        if spec_starts_with(t, "name "@) {
            ParseState {
                name: t.skip(5),
                url: spec_default_url(t.skip(5)),
                mode: BlockMode::Top,
                ..st1
            }
        } else if t == "runfiles"@ {
            ParseState { mode: BlockMode::Run, ..st1 }
        } else if t == "binfiles"@ {
            ParseState { mode: BlockMode::Bin, ..st1 }
        } else if spec_starts_with(t, "depends "@) {
            ParseState {
                depends: st1.depends + spec_parse_csv(t.skip(8)),
                mode: BlockMode::Top,
                ..st1
            }
        } else if spec_starts_with(t, "revision "@) {
            ParseState { revision: t.skip(9), mode: BlockMode::Top, ..st1 }
        } else if spec_starts_with(t, "shortdesc "@) {
            ParseState { description: Some(t.skip(10)), mode: BlockMode::Top, ..st1 }
        } else if spec_starts_with(t, "longdesc "@) {
            ParseState { mode: BlockMode::Long, acc: seq![t.skip(9)], ..st1 }
        } else {
            st1
        }
    }
}

pub open spec fn spec_fold_lines(lines: Seq<Seq<char>>) -> ParseState
    decreases lines.len(),
{
    if lines.len() == 0 {
        spec_init_state()
    } else {
        spec_step_line(spec_fold_lines(lines.drop_last()), lines.last())
    }
}

/// What one block contributes: its record, unless it never named itself.
pub open spec fn spec_finish(st: ParseState) -> Option<PackageView> {
    let st1 = spec_close_long(st);
    if st1.name.len() == 0 {
        None
    } else {
        Some(
            PackageView {
                name: st1.name,
                revision: st1.revision,
                url: st1.url,
                depends: st1.depends,
                runfiles: st1.runfiles,
                binfiles: st1.binfiles,
                description: st1.description,
                longdesc: st1.longdesc,
            },
        )
    }
}

pub open spec fn spec_parse_block(block: Seq<char>) -> Option<PackageView> {
    spec_finish(spec_fold_lines(spec_split_lines(block)))
}

/// The records of a catalog's blocks, in block order.
pub open spec fn spec_parse_blocks(blocks: Seq<Seq<char>>) -> Seq<PackageView>
    decreases blocks.len(),
{
    if blocks.len() == 0 {
        Seq::empty()
    } else {
        spec_parse_blocks(blocks.drop_last()) + (match spec_parse_block(blocks.last()) {
            Some(p) => seq![p],
            None => Seq::empty(),
        })
    }
}

/// Every record a catalog text parses to, in order of appearance.
pub open spec fn spec_parse_catalog(text: Seq<char>) -> Seq<PackageView> {
    spec_parse_blocks(spec_split_blocks(text))
}

/// Lookup in a record sequence where the last record of a name wins,
/// as building the index from parsed records overwrites earlier ones.
pub open spec fn spec_catalog_lookup(pkgs: Seq<PackageView>, name: Seq<char>) -> Option<
    PackageView,
>
    decreases pkgs.len(),
{
    if pkgs.len() == 0 {
        None
    } else if pkgs.last().name == name {
        Some(pkgs.last())
    } else {
        spec_catalog_lookup(pkgs.drop_last(), name)
    }
}

/// Split `s` at every occurrence of `sep`.
fn split_on_char(s: &str, sep: char) -> (r: Vec<String>)
    ensures
        r.deep_view() == spec_split_char(s@, sep),
{
    let n: usize = s.unicode_len();
    let mut r: Vec<String> = Vec::new();
    let mut start: usize = 0;
    let mut i: usize = 0;
    proof {
        assert(s@.skip(0) =~= s@);
        assert(s@.subrange(0, 0) =~= Seq::<char>::empty());
    }
    while i < n
        invariant
            0 <= start <= i <= n,
            n == s@.len(),
            spec_split_char(s@, sep) == r.deep_view() + spec_split_char_from(
                s@.skip(i as int),
                sep,
                s@.subrange(start as int, i as int),
            ),
        decreases n - i,
    {
        let ghost rem = s@.skip(i as int);
        let ghost acc = s@.subrange(start as int, i as int);
        proof {
            assert(rem[0] == s@[i as int]);
            assert(rem.drop_first() =~= s@.skip(i + 1));
        }
        if s.get_char(i) == sep {
            let piece = s.substring_char(start, i).to_owned();
            proof {
                assert(piece@ == acc);
                assert(spec_split_char_from(rem, sep, acc) == seq![acc]
                    + spec_split_char_from(s@.skip(i + 1), sep, Seq::empty()));
            }
            let ghost old_dv = r.deep_view();
            r.push(piece);
            proof {
                assert(r.deep_view() =~= old_dv.push(acc));
                assert(old_dv.push(acc) =~= old_dv + seq![acc]);
            }
            start = i + 1;
            i = i + 1;
            proof {
                assert(s@.subrange(start as int, i as int) =~= Seq::<char>::empty());
            }
        } else {
            proof {
                assert(spec_split_char_from(rem, sep, acc) == spec_split_char_from(
                    s@.skip(i + 1),
                    sep,
                    acc.push(s@[i as int]),
                ));
                assert(acc.push(s@[i as int]) =~= s@.subrange(start as int, i + 1));
            }
            i = i + 1;
        }
    }
    let piece = s.substring_char(start, n).to_owned();
    let ghost old_dv = r.deep_view();
    r.push(piece);
    proof {
        assert(s@.skip(n as int).len() == 0);
        assert(spec_split_char_from(s@.skip(n as int), sep, s@.subrange(start as int, n as int))
            == seq![s@.subrange(start as int, n as int)]);
        assert(r.deep_view() =~= old_dv.push(s@.subrange(start as int, n as int)));
        assert(old_dv.push(s@.subrange(start as int, n as int)) =~= old_dv + seq![
            s@.subrange(start as int, n as int),
        ]);
    }
    r
}

/// Split a catalog text into its blocks.
fn split_blocks(s: &str) -> (r: Vec<String>)
    ensures
        r.deep_view() == spec_split_blocks(s@),
{
    let n: usize = s.unicode_len();
    let mut r: Vec<String> = Vec::new();
    let mut start: usize = 0;
    let mut i: usize = 0;
    proof {
        assert(s@.skip(0) =~= s@);
        assert(s@.subrange(0, 0) =~= Seq::<char>::empty());
    }
    while i < n
        invariant
            0 <= start <= i <= n,
            n == s@.len(),
            spec_split_blocks(s@) == r.deep_view() + spec_split_blocks_from(
                s@.skip(i as int),
                s@.subrange(start as int, i as int),
            ),
        decreases n - i,
    {
        let ghost rem = s@.skip(i as int);
        let ghost acc = s@.subrange(start as int, i as int);
        proof {
            assert(rem[0] == s@[i as int]);
            assert(rem.drop_first() =~= s@.skip(i + 1));
        }
        if i + 1 < n && s.get_char(i) == '\n' && s.get_char(i + 1) == '\n' {
            proof {
                assert(rem.len() >= 2);
                assert(rem[1] == s@[i + 1]);
                assert(rem.skip(2) =~= s@.skip(i + 2));
                assert(spec_split_blocks_from(rem, acc) == seq![acc] + spec_split_blocks_from(
                    s@.skip(i + 2),
                    Seq::empty(),
                ));
            }
            let piece = s.substring_char(start, i).to_owned();
            let ghost old_dv = r.deep_view();
            r.push(piece);
            proof {
                assert(r.deep_view() =~= old_dv.push(acc));
                assert(old_dv.push(acc) =~= old_dv + seq![acc]);
            }
            start = i + 2;
            i = i + 2;
            proof {
                assert(s@.subrange(start as int, i as int) =~= Seq::<char>::empty());
            }
        } else {
            proof {
                if rem.len() >= 2 && rem[0] == '\n' && rem[1] == '\n' {
                    assert(s@[i + 1] == rem[1]);
                    assert(false);
                }
                assert(spec_split_blocks_from(rem, acc) == spec_split_blocks_from(
                    s@.skip(i + 1),
                    acc.push(s@[i as int]),
                ));
                assert(acc.push(s@[i as int]) =~= s@.subrange(start as int, i + 1));
            }
            i = i + 1;
        }
    }
    let piece = s.substring_char(start, n).to_owned();
    let ghost old_dv = r.deep_view();
    r.push(piece);
    proof {
        assert(s@.skip(n as int).len() == 0);
        assert(spec_split_blocks_from(s@.skip(n as int), s@.subrange(start as int, n as int))
            == seq![s@.subrange(start as int, n as int)]);
        assert(r.deep_view() =~= old_dv.push(s@.subrange(start as int, n as int)));
        assert(old_dv.push(s@.subrange(start as int, n as int)) =~= old_dv + seq![
            s@.subrange(start as int, n as int),
        ]);
    }
    r
}

/// Parse one `depends` payload.
fn parse_csv(s: &str) -> (r: Vec<String>)
    ensures
        r.deep_view() == spec_parse_csv(s@),
{
    let pieces = split_on_char(s, ',');
    let ghost pv = pieces.deep_view();
    let mut r: Vec<String> = Vec::new();
    let mut i: usize = 0;
    proof {
        assert(pv.subrange(0, 0) =~= Seq::<Seq<char>>::empty());
        assert(r.deep_view() =~= spec_csv_pieces(pv.subrange(0, 0)));
    }
    while i < pieces.len()
        invariant
            0 <= i <= pieces.len(),
            pv == pieces.deep_view(),
            r.deep_view() == spec_csv_pieces(pv.subrange(0, i as int)),
        decreases pieces.len() - i,
    {
        let t = str_trim(pieces[i].as_str());
        proof {
            assert(pieces[i as int]@ == pv[i as int]);
            assert(pv.subrange(0, i + 1).drop_last() =~= pv.subrange(0, i as int));
            assert(pv.subrange(0, i + 1).last() == pv[i as int]);
        }
        if t.unicode_len() > 0 {
            let ghost old_dv = r.deep_view();
            r.push(t.to_owned());
            proof {
                assert(r.deep_view() =~= old_dv.push(spec_trim(pv[i as int])));
                assert(old_dv.push(spec_trim(pv[i as int])) =~= old_dv + seq![
                    spec_trim(pv[i as int]),
                ]);
            }
        } else {
            proof {
                assert(r.deep_view() =~= r.deep_view() + Seq::<Seq<char>>::empty());
            }
        }
        i = i + 1;
    }
    proof {
        assert(pv.subrange(0, pieces.len() as int) =~= pv);
    }
    r
}

/// Join accumulated long-description lines with newlines.
fn join_nl(ls: &Vec<String>) -> (r: String)
    ensures
        r@ == spec_join_nl(ls.deep_view()),
{
    let ghost lv = ls.deep_view();
    let mut r = String::new();
    let mut i: usize = 0;
    proof {
        assert(lv.subrange(0, 0) =~= Seq::<Seq<char>>::empty());
    }
    while i < ls.len()
        invariant
            0 <= i <= ls.len(),
            lv == ls.deep_view(),
            r@ == spec_join_nl(lv.subrange(0, i as int)),
        decreases ls.len() - i,
    {
        proof {
            assert(ls[i as int]@ == lv[i as int]);
            assert(lv.subrange(0, i + 1).drop_last() =~= lv.subrange(0, i as int));
            assert(lv.subrange(0, i + 1).last() == lv[i as int]);
        }
        if i > 0 {
            r.append("\n");
            proof {
                reveal_strlit("\n");
                assert("\n"@ =~= seq!['\n']);
            }
        } else {
            proof {
                assert(lv.subrange(0, 1).len() == 1);
                assert(spec_join_nl(lv.subrange(0, 0)) =~= Seq::<char>::empty());
                assert(r@ =~= Seq::<char>::empty());
            }
        }
        r.append(ls[i].as_str());
        proof {
            if i == 0 {
                assert(r@ =~= lv[0]);
                assert(spec_join_nl(lv.subrange(0, 1)) == lv.subrange(0, 1)[0]);
                assert(lv.subrange(0, 1)[0] == lv[0]);
            } else {
                assert(spec_join_nl(lv.subrange(0, i + 1)) == spec_join_nl(
                    lv.subrange(0, i as int),
                ) + seq!['\n'] + lv[i as int]);
            }
        }
        i = i + 1;
    }
    proof {
        assert(lv.subrange(0, ls.len() as int) =~= lv);
    }
    r
}

/// The parser state, executably.
struct PkgBuilder {
    name: String,
    revision: String,
    url: String,
    depends: Vec<String>,
    runfiles: Vec<String>,
    binfiles: Vec<String>,
    description: Option<String>,
    longdesc: Option<String>,
    mode: BlockMode,
    acc: Vec<String>,
}

impl View for PkgBuilder {
    type V = ParseState;

    closed spec fn view(&self) -> ParseState {
        ParseState {
            name: self.name@,
            revision: self.revision@,
            url: self.url@,
            depends: self.depends.deep_view(),
            runfiles: self.runfiles.deep_view(),
            binfiles: self.binfiles.deep_view(),
            description: self.description.deep_view(),
            longdesc: self.longdesc.deep_view(),
            mode: self.mode,
            acc: self.acc.deep_view(),
        }
    }
}

impl PkgBuilder {
    fn new() -> (r: PkgBuilder)
        ensures
            r@ == spec_init_state(),
    {
        let r = PkgBuilder {
            name: String::new(),
            revision: String::from_str("unknown"),
            url: String::new(),
            depends: Vec::new(),
            runfiles: Vec::new(),
            binfiles: Vec::new(),
            description: None,
            longdesc: None,
            mode: BlockMode::Top,
            acc: Vec::new(),
        };
        proof {
            assert(r@ =~~= spec_init_state());
        }
        r
    }

    fn close_long(&mut self)
        ensures
            final(self)@ == spec_close_long(old(self)@),
    {
        if self.mode == BlockMode::Long {
            self.longdesc = Some(join_nl(&self.acc));
            self.mode = BlockMode::Top;
            self.acc = Vec::new();
            proof {
                assert(self@ =~~= spec_close_long(old(self)@));
            }
        } else {
            proof {
                assert(self@ =~~= spec_close_long(old(self)@));
            }
        }
    }

    fn step_line(&mut self, raw: &str)
        ensures
            final(self)@ == spec_step_line(old(self)@, raw@),
    {
        let trimmed = str_trim(raw);
        let is_cont = raw.unicode_len() > 0 && char_is_space(raw.get_char(0))
            && trimmed.unicode_len() > 0;
        proof {
            assert(is_cont == spec_is_continuation(raw@));
        }
        if self.mode == BlockMode::Long && is_cont {
            self.acc.push(trimmed.to_owned());
            proof {
                assert(self@.acc =~= old(self)@.acc.push(spec_trim(raw@)));
                assert(self@ =~~= spec_step_line(old(self)@, raw@));
            }
            return ;
        }
        if self.mode == BlockMode::Run && is_cont {
            self.runfiles.push(trimmed.to_owned());
            proof {
                assert(self@.runfiles =~= old(self)@.runfiles.push(spec_trim(raw@)));
                assert(self@ =~~= spec_step_line(old(self)@, raw@));
            }
            return ;
        }
        if self.mode == BlockMode::Bin && is_cont {
            self.binfiles.push(trimmed.to_owned());
            proof {
                assert(self@.binfiles =~= old(self)@.binfiles.push(spec_trim(raw@)));
                assert(self@ =~~= spec_step_line(old(self)@, raw@));
            }
            return ;
        }
        self.close_long();
        let ghost st1 = spec_close_long(old(self)@);
        if str_starts_with(trimmed, "name ") {
            proof {
                reveal_strlit("name ");
            }
            let payload = str_skip(trimmed, 5);
            self.name = payload.to_owned();
            self.url = default_url(payload);
            self.mode = BlockMode::Top;
            proof {
                assert(self@ =~~= spec_step_line(old(self)@, raw@));
            }
            return ;
        }
        if str_eq(trimmed, "runfiles") {
            self.mode = BlockMode::Run;
            proof {
                assert(self@ =~~= spec_step_line(old(self)@, raw@));
            }
            return ;
        }
        if str_eq(trimmed, "binfiles") {
            self.mode = BlockMode::Bin;
            proof {
                assert(self@ =~~= spec_step_line(old(self)@, raw@));
            }
            return ;
        }
        if str_starts_with(trimmed, "depends ") {
            proof {
                reveal_strlit("depends ");
            }
            let payload = str_skip(trimmed, 8);
            let mut deps = parse_csv(payload);
            let ghost deps_dv = deps.deep_view();
            self.depends.append(&mut deps);
            self.mode = BlockMode::Top;
            proof {
                assert(self@.depends =~= st1.depends + deps_dv);
                assert(self@ =~~= spec_step_line(old(self)@, raw@));
            }
            return ;
        }
        if str_starts_with(trimmed, "revision ") {
            proof {
                reveal_strlit("revision ");
            }
            let payload = str_skip(trimmed, 9);
            self.revision = payload.to_owned();
            self.mode = BlockMode::Top;
            proof {
                assert(self@ =~~= spec_step_line(old(self)@, raw@));
            }
            return ;
        }
        if str_starts_with(trimmed, "shortdesc ") {
            proof {
                reveal_strlit("shortdesc ");
            }
            let payload = str_skip(trimmed, 10);
            self.description = Some(payload.to_owned());
            self.mode = BlockMode::Top;
            proof {
                assert(self@ =~~= spec_step_line(old(self)@, raw@));
            }
            return ;
        }
        if str_starts_with(trimmed, "longdesc ") {
            proof {
                reveal_strlit("longdesc ");
            }
            let payload = str_skip(trimmed, 9);
            self.mode = BlockMode::Long;
            self.acc = Vec::new();
            self.acc.push(payload.to_owned());
            proof {
                assert(self@.acc =~= seq![spec_trim(raw@).skip(9)]);
                assert(self@ =~~= spec_step_line(old(self)@, raw@));
            }
            return ;
        }
        proof {
            assert(self@ =~~= spec_step_line(old(self)@, raw@));
        }
    }

    fn finish(self) -> (r: Option<Package>)
        ensures
            match r {
                Some(p) => spec_finish(self@) == Some(p@),
                None => spec_finish(self@) is None,
            },
    {
        let longdesc = if self.mode == BlockMode::Long {
            Some(join_nl(&self.acc))
        } else {
            self.longdesc
        };
        proof {
            assert(spec_close_long(self@).longdesc == longdesc.deep_view());
            assert(spec_close_long(self@).name == self@.name);
        }
        if self.name.unicode_len() == 0 {
            return None;
        }
        let p = Package {
            name: self.name,
            revision: self.revision,
            url: self.url,
            depends: self.depends,
            runfiles: self.runfiles,
            binfiles: self.binfiles,
            description: self.description,
            longdesc,
        };
        Some(p)
    }
}

/// Parse one block of the catalog into a record, if it names one.
pub fn parse_block(block: &str) -> (r: Option<Package>)
    ensures
        match r {
            Some(p) => spec_parse_block(block@) == Some(p@),
            None => spec_parse_block(block@) is None,
        },
{
    let lines = split_on_char(block, '\n');
    let ghost lv = lines.deep_view();
    let mut b = PkgBuilder::new();
    let mut i: usize = 0;
    proof {
        assert(lv.subrange(0, 0) =~= Seq::<Seq<char>>::empty());
    }
    while i < lines.len()
        invariant
            0 <= i <= lines.len(),
            lv == lines.deep_view(),
            b@ == spec_fold_lines(lv.subrange(0, i as int)),
        decreases lines.len() - i,
    {
        proof {
            assert(lines[i as int]@ == lv[i as int]);
            assert(lv.subrange(0, i + 1).drop_last() =~= lv.subrange(0, i as int));
            assert(lv.subrange(0, i + 1).last() == lv[i as int]);
        }
        b.step_line(lines[i].as_str());
        i = i + 1;
    }
    proof {
        assert(lv.subrange(0, lines.len() as int) =~= lv);
    }
    b.finish()
}

/// Relies on rayon's `par_iter`/`filter_map`/`collect` for `Vec`: the
/// collected vector holds each closure result in the order of the input
/// (rayon reduces splits left-to-right), so it equals the sequential
/// filter-map, which `spec_parse_blocks` is, because `parse_block` is
/// proved to return `spec_parse_block` of its input.
#[verifier::external_body]
fn parse_blocks_parallel(blocks: &Vec<String>) -> (r: Vec<Package>)
    ensures
        r.deep_view() == spec_parse_blocks(blocks.deep_view()),
{
    blocks.par_iter().filter_map(|b| parse_block(b.as_str())).collect()
}

/// Parse a whole catalog text into an index.  Blocks are parsed in
/// parallel; a later block naming the same package wins.
pub fn parse_catalog(text: &str) -> (r: PackageIndex)
    ensures
        r.wf(),
        forall|n: Seq<char>|
            #[trigger] spec_find(r@, n) == spec_catalog_lookup(spec_parse_catalog(text@), n),
{
    let blocks = split_blocks(text);
    let mut pkgs = parse_blocks_parallel(&blocks);
    let total: usize = pkgs.len();
    let ghost all = pkgs.deep_view();
    proof {
        assert(all.len() == total);
    }
    proof {
        assert(all == spec_parse_catalog(text@));
    }
    let mut idx = PackageIndex::new();
    let mut i: usize = 0;
    proof {
        assert(all.len() == pkgs@.len());
        assert(all.subrange(0, 0) =~= Seq::<PackageView>::empty());
        assert(forall|n: Seq<char>|
            #[trigger] spec_find(idx@, n) == spec_catalog_lookup(all.subrange(0, 0), n));
        assert(pkgs.deep_view() =~= all.skip(0));
    }
    while pkgs.len() > 0
        invariant
            0 <= i <= all.len(),
            all.len() <= usize::MAX,
            pkgs.deep_view() == all.skip(i as int),
            idx.wf(),
            forall|n: Seq<char>|
                #[trigger] spec_find(idx@, n) == spec_catalog_lookup(all.subrange(0, i as int), n),
        decreases pkgs.len(),
    {
        proof {
            assert(all.skip(i as int).len() == pkgs.deep_view().len());
            assert(i < all.len());
        }
        let ghost prev = pkgs@;
        let ghost prev_dv = pkgs.deep_view();
        let p = pkgs.remove(0);
        proof {
            assert(p.deep_view() == prev_dv[0]);
            assert(prev_dv[0] == all.skip(i as int)[0]);
            assert(all.skip(i as int)[0] == all[i as int]);
        }
        let ghost before = idx@;
        idx.insert(p);
        proof {
            assert(pkgs@ == prev.remove(0));
            assert forall|k: int| 0 <= k < pkgs.deep_view().len() implies pkgs.deep_view()[k]
                == all.skip(i + 1)[k] by {
                assert(pkgs@[k] == prev[k + 1]);
                assert(pkgs.deep_view()[k] == pkgs@[k].deep_view());
                assert(prev_dv[k + 1] == prev[k + 1].deep_view());
                assert(prev_dv[k + 1] == all.skip(i as int)[k + 1]);
                assert(all.skip(i as int)[k + 1] == all[i + 1 + k]);
                assert(all.skip(i + 1)[k] == all[i + 1 + k]);
            };
            assert(pkgs.deep_view() =~= all.skip(i + 1));
            assert(all.subrange(0, i + 1).drop_last() =~= all.subrange(0, i as int));
            assert(all.subrange(0, i + 1).last() == all[i as int]);
            assert forall|n: Seq<char>|
                #[trigger] spec_find(idx@, n) == spec_catalog_lookup(
                all.subrange(0, i + 1),
                n,
            ) by {
                if n == p@.name {
                    assert(spec_catalog_lookup(all.subrange(0, i + 1), n) == Some(all[i as int]));
                } else {
                    assert(spec_find(idx@, n) == spec_find(before, n));
                    assert(spec_catalog_lookup(all.subrange(0, i + 1), n) == spec_catalog_lookup(
                        all.subrange(0, i as int),
                        n,
                    ));
                }
            };
        }
        i = i + 1;
    }
    proof {
        assert(all.subrange(0, i as int) =~= all);
    }
    idx
}

/// Every parsed record carries a non-empty name, and its URL is the
/// default archive URL derived from that name.
pub proof fn lemma_state_url_invariant(lines: Seq<Seq<char>>)
    ensures
        spec_fold_lines(lines).name.len() > 0 ==> spec_fold_lines(lines).url == spec_default_url(
            spec_fold_lines(lines).name,
        ),
    decreases lines.len(),
{
    if lines.len() > 0 {
        lemma_state_url_invariant(lines.drop_last());
    }
}

/// The well-formedness law of the parser: every package a catalog parses
/// to has a non-empty name, and its URL is `<mirror>/archive/<name>.tar.xz`.
pub proof fn lemma_catalog_records_well_formed(text: Seq<char>)
    ensures
        forall|k: int|
            0 <= k < spec_parse_catalog(text).len() ==> (#[trigger] spec_parse_catalog(
                text,
            )[k]).name.len() > 0 && spec_parse_catalog(text)[k].url == spec_default_url(
                spec_parse_catalog(text)[k].name,
            ),
{
    lemma_parse_blocks_well_formed(spec_split_blocks(text));
}

proof fn lemma_parse_blocks_well_formed(blocks: Seq<Seq<char>>)
    ensures
        forall|k: int|
            0 <= k < spec_parse_blocks(blocks).len() ==> (#[trigger] spec_parse_blocks(
                blocks,
            )[k]).name.len() > 0 && spec_parse_blocks(blocks)[k].url == spec_default_url(
                spec_parse_blocks(blocks)[k].name,
            ),
    decreases blocks.len(),
{
    if blocks.len() > 0 {
        lemma_parse_blocks_well_formed(blocks.drop_last());
        let st = spec_fold_lines(spec_split_lines(blocks.last()));
        lemma_state_url_invariant(spec_split_lines(blocks.last()));
        let prev = spec_parse_blocks(blocks.drop_last());
        match spec_parse_block(blocks.last()) {
            Some(p) => {
                assert(spec_close_long(st).name == st.name && spec_close_long(st).url == st.url);
                assert(forall|k: int|
                    0 <= k < prev.len() ==> spec_parse_blocks(blocks)[k] == prev[k]);
                assert(spec_parse_blocks(blocks).last() == p);
            },
            None => {
                assert(spec_parse_blocks(blocks) =~= prev);
            },
        }
    }
}

} // verus!
