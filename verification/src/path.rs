//! Paths as byte strings whose components are separated by `/`.
//!
//! A path is read as an optional root (`/`) or leading current-directory
//! mark (`.`), followed by a body of components. Empty components and `.`
//! inside the body carry no meaning and are skipped; `..` is kept as a
//! component of its own. Nothing here touches a file system.

use vstd::prelude::*;
use vstd::slice::{slice_subrange, slice_to_vec};
use vstd::std_specs::cmp::PartialEqSpecImpl;
use vstd::string::StringSliceAdditionalSpecFns;
use vstd::utf8::valid_utf8;

verus! {

/// The byte that separates components.
pub const SEP: u8 = 0x2f;

/// The byte `.`.
pub const DOT: u8 = 0x2e;

/// The primary separator as a character.
pub const MAIN_SEPARATOR: char = '/';

/// Whether `b` separates components.
pub fn is_sep_byte(b: u8) -> (r: bool)
    ensures
        r == (b == SEP),
{
    b == SEP
}

/// Whether `b` separates components behind a verbatim prefix.
pub fn is_verbatim_sep(b: u8) -> (r: bool)
    ensures
        r == (b == SEP),
{
    b == SEP
}

/// Whether `c` is a separator.
pub fn is_separator(c: char) -> (r: bool)
    ensures
        r == (c == '/'),
{
    c == '/'
}

/// A volume prefix of a path. Paths separated by `/` have none, so the
/// variants only give names to the forms that other path styles know.
#[derive(Clone, Copy, Debug)]
pub enum Prefix<'a> {
    /// `\\?\` and the component behind it.
    Verbatim(&'a [u8]),
    /// `\\?\UNC\` with a server and a share.
    VerbatimUNC(&'a [u8], &'a [u8]),
    /// `\\?\C:\` for the drive letter given.
    VerbatimDisk(u8),
    /// `\\.\` and the device name behind it.
    DeviceNS(&'a [u8]),
    /// `\\server\share`.
    UNC(&'a [u8], &'a [u8]),
    /// `C:` for the drive letter given.
    Disk(u8),
}

/// The length in bytes of the text of a prefix, from the lengths of its parts.
pub open spec fn prefix_len(p: Prefix<'_>) -> int {
    match p {
        Prefix::Verbatim(x) => 4 + x@.len() as int,
        Prefix::VerbatimUNC(x, y) => 8 + x@.len() as int + if y@.len() > 0 {
            1 + y@.len() as int
        } else {
            0int
        },
        Prefix::VerbatimDisk(_) => 6int,
        Prefix::UNC(x, y) => 2 + x@.len() as int + if y@.len() > 0 {
            1 + y@.len() as int
        } else {
            0int
        },
        Prefix::DeviceNS(x) => 4 + x@.len() as int,
        Prefix::Disk(_) => 2int,
    }
}

impl<'a> Prefix<'a> {
    /// The length in bytes of the prefix as it is written, or `None` where
    /// that does not fit the machine word.
    pub fn len(&self) -> (r: Option<usize>)
        ensures
            prefix_len(*self) <= usize::MAX ==> r == Some(prefix_len(*self) as usize),
            prefix_len(*self) > usize::MAX ==> r is None,
    {
        match *self {
            Prefix::Verbatim(x) => x.len().checked_add(4),
            Prefix::VerbatimUNC(x, y) => {
                let tail = if y.len() > 0 {
                    y.len().checked_add(1)
                } else {
                    Some(0)
                };
                match (x.len().checked_add(8), tail) {
                    (Some(a), Some(b)) => a.checked_add(b),
                    _ => None,
                }
            },
            Prefix::VerbatimDisk(_) => Some(6),
            Prefix::UNC(x, y) => {
                let tail = if y.len() > 0 {
                    y.len().checked_add(1)
                } else {
                    Some(0)
                };
                match (x.len().checked_add(2), tail) {
                    (Some(a), Some(b)) => a.checked_add(b),
                    _ => None,
                }
            },
            Prefix::DeviceNS(x) => x.len().checked_add(4),
            Prefix::Disk(_) => Some(2),
        }
    }

    /// Whether the prefix is verbatim, that is, begins with `\\?\`.
    pub fn is_verbatim(&self) -> (r: bool)
        ensures
            r == (*self is Verbatim || *self is VerbatimDisk || *self is VerbatimUNC),
    {
        match *self {
            Prefix::Verbatim(_) | Prefix::VerbatimDisk(_) | Prefix::VerbatimUNC(_, _) => true,
            _ => false,
        }
    }

    /// Whether the prefix names a drive.
    pub fn is_drive(&self) -> (r: bool)
        ensures
            r == (*self is Disk),
    {
        match *self {
            Prefix::Disk(_) => true,
            _ => false,
        }
    }

    /// Whether a path with this prefix is rooted without a separator behind
    /// the prefix.
    pub fn has_implicit_root(&self) -> (r: bool)
        ensures
            r == !(*self is Disk),
    {
        !self.is_drive()
    }
}

/// The prefix that `path` begins with. A path separated by `/` has none.
pub fn parse_prefix<'a>(path: &'a [u8]) -> (r: Option<Prefix<'a>>)
    ensures
        r is None,
{
    None
}

/// A prefix as a component: its text and what it was read as.
#[derive(Clone, Copy, Debug)]
pub struct PrefixComponent<'a> {
    raw: &'a [u8],
    parsed: Prefix<'a>,
}

impl<'a> PrefixComponent<'a> {
    /// The text of the prefix.
    pub closed spec fn text(&self) -> Seq<u8> {
        self.raw@
    }

    /// What the prefix was read as.
    pub closed spec fn parsed(&self) -> Prefix<'a> {
        self.parsed
    }

    /// What the prefix was read as.
    pub fn kind(&self) -> (r: Prefix<'a>)
        ensures
            r == self.parsed(),
    {
        self.parsed
    }

    /// The text of the prefix.
    pub fn as_os_str(&self) -> (r: &'a [u8])
        ensures
            r@ == self.text(),
    {
        self.raw
    }
}

/// One component of a path.
#[derive(Clone, Copy, Debug)]
pub enum Component<'a> {
    /// A volume prefix. Never read from a path separated by `/`.
    Prefix(PrefixComponent<'a>),
    /// The root directory, written `/` at the start.
    RootDir,
    /// The current directory, written `.` at the start.
    CurDir,
    /// The parent directory, written `..`.
    ParentDir,
    /// A name.
    Normal(&'a [u8]),
}

/// What a component is, with its text as a sequence of bytes.
pub enum ComponentView {
    Prefix(Seq<u8>),
    RootDir,
    CurDir,
    ParentDir,
    Normal(Seq<u8>),
}

impl<'a> View for Component<'a> {
    type V = ComponentView;

    open spec fn view(&self) -> ComponentView {
        match *self {
            Component::Prefix(p) => ComponentView::Prefix(p.text()),
            Component::RootDir => ComponentView::RootDir,
            Component::CurDir => ComponentView::CurDir,
            Component::ParentDir => ComponentView::ParentDir,
            Component::Normal(n) => ComponentView::Normal(n@),
        }
    }
}

/// The text that a component is written as.
pub open spec fn component_text(c: ComponentView) -> Seq<u8> {
    match c {
        ComponentView::Prefix(p) => p,
        ComponentView::RootDir => seq![SEP],
        ComponentView::CurDir => seq![DOT],
        ComponentView::ParentDir => seq![DOT, DOT],
        ComponentView::Normal(n) => n,
    }
}

impl<'a> Component<'a> {
    /// The text that the component is written as.
    pub fn as_os_str(self) -> (r: &'a [u8])
        ensures
            r@ == component_text(self@),
    {
        match self {
            Component::Prefix(p) => p.as_os_str(),
            Component::RootDir => {
                let a: &'static [u8; 1] = &[0x2fu8];
                assert(a@ =~= seq![SEP]);
                a
            },
            Component::CurDir => {
                let a: &'static [u8; 1] = &[0x2eu8];
                assert(a@ =~= seq![DOT]);
                a
            },
            Component::ParentDir => {
                let a: &'static [u8; 2] = &[0x2eu8, 0x2eu8];
                assert(a@ =~= seq![DOT, DOT]);
                a
            },
            Component::Normal(n) => n,
        }
    }
}

/// What the bytes between two separators stand for: nothing where they are
/// empty or a single `.`, the parent directory for `..`, else a name.
pub open spec fn single_component(comp: Seq<u8>) -> Option<ComponentView> {
    if comp.len() == 0 {
        None
    } else if comp.len() == 1 && comp[0] == DOT {
        None
    } else if comp.len() == 2 && comp[0] == DOT && comp[1] == DOT {
        Some(ComponentView::ParentDir)
    } else {
        Some(ComponentView::Normal(comp))
    }
}

/// No component or one, as a sequence.
pub open spec fn optional(c: Option<ComponentView>) -> Seq<ComponentView> {
    match c {
        Some(c) => seq![c],
        None => Seq::empty(),
    }
}

/// The position of the first separator of `b` in `lo..hi`, or `hi` where
/// there is none.
pub open spec fn first_sep(b: Seq<u8>, lo: int, hi: int) -> int
    decreases hi - lo,
{
    if lo >= hi {
        hi
    } else if b[lo] == SEP {
        lo
    } else {
        first_sep(b, lo + 1, hi)
    }
}

/// Where the last component of `b` in `lo..hi` starts: behind the last
/// separator in that range, or at `lo` where there is none.
pub open spec fn last_start(b: Seq<u8>, lo: int, hi: int) -> int
    decreases hi - lo,
{
    if hi <= lo {
        lo
    } else if b[hi - 1] == SEP {
        hi
    } else {
        last_start(b, lo, hi - 1)
    }
}

/// Where the range `lo..hi` ends once its last component, and the
/// separator before it, are taken away.
pub open spec fn before_last(b: Seq<u8>, lo: int, hi: int) -> int {
    let s = last_start(b, lo, hi);
    if s > lo {
        s - 1
    } else {
        lo
    }
}

/// The components of the body `b[lo..hi]`, in order.
pub open spec fn body_components(b: Seq<u8>, lo: int, hi: int) -> Seq<ComponentView>
    decreases hi - lo,
{
    if lo >= hi {
        Seq::empty()
    } else {
        let i = first_sep(b, lo, hi);
        let head = optional(single_component(b.subrange(lo, i)));
        if lo <= i < hi {
            head + body_components(b, i + 1, hi)
        } else {
            head
        }
    }
}

/// Whether `b` begins with the root.
pub open spec fn rooted(b: Seq<u8>) -> bool {
    b.len() > 0 && b[0] == SEP
}

/// Whether `b` begins with a `.` that stands for the current directory.
pub open spec fn leads_with_cur_dir(b: Seq<u8>) -> bool {
    b.len() > 0 && b[0] == DOT && (b.len() == 1 || b[1] == SEP)
}

/// How many bytes of `b` stand before its body: one for a root or a leading
/// `.`, else none.
pub open spec fn body_start(b: Seq<u8>) -> int {
    if rooted(b) || leads_with_cur_dir(b) {
        1
    } else {
        0
    }
}

/// What stands before the body of `b`, as components.
pub open spec fn start_components(b: Seq<u8>) -> Seq<ComponentView> {
    if rooted(b) {
        seq![ComponentView::RootDir]
    } else if leads_with_cur_dir(b) {
        seq![ComponentView::CurDir]
    } else {
        Seq::empty()
    }
}

/// The components of the path `b`, in order.
pub open spec fn path_components(b: Seq<u8>) -> Seq<ComponentView> {
    start_components(b) + body_components(b, body_start(b), b.len() as int)
}

/// Where `lo..hi` starts once empty components and `.` are dropped from
/// its left.
pub open spec fn trim_left_start(b: Seq<u8>, lo: int, hi: int) -> int
    decreases hi - lo,
{
    if lo >= hi {
        lo
    } else {
        let i = first_sep(b, lo, hi);
        if single_component(b.subrange(lo, i)) is Some {
            lo
        } else if lo <= i < hi {
            trim_left_start(b, i + 1, hi)
        } else {
            hi
        }
    }
}

/// Where `lo..hi` ends once empty components and `.` are dropped from its
/// right.
pub open spec fn trim_right_end(b: Seq<u8>, lo: int, hi: int) -> int
    decreases hi - lo,
{
    if hi <= lo {
        hi
    } else {
        let s = last_start(b, lo, hi);
        if single_component(b.subrange(s, hi)) is Some {
            hi
        } else if lo <= before_last(b, lo, hi) < hi {
            trim_right_end(b, lo, before_last(b, lo, hi))
        } else {
            lo
        }
    }
}

/// `first_sep` finds a separator that nothing in the range precedes.
pub proof fn lemma_first_sep(b: Seq<u8>, lo: int, hi: int)
    requires
        0 <= lo <= hi <= b.len(),
    ensures
        lo <= first_sep(b, lo, hi) <= hi,
        first_sep(b, lo, hi) < hi ==> b[first_sep(b, lo, hi)] == SEP,
        forall|k: int| lo <= k < first_sep(b, lo, hi) ==> b[k] != SEP,
    decreases hi - lo,
{
    if lo < hi && b[lo] != SEP {
        lemma_first_sep(b, lo + 1, hi);
    }
}

/// Any position that is a separator, or the end, with no separator before
/// it, is what `first_sep` finds.
pub proof fn lemma_first_sep_is(b: Seq<u8>, lo: int, hi: int, i: int)
    requires
        0 <= lo <= i <= hi <= b.len(),
        i < hi ==> b[i] == SEP,
        forall|k: int| lo <= k < i ==> b[k] != SEP,
    ensures
        first_sep(b, lo, hi) == i,
    decreases i - lo,
{
    if lo < i {
        lemma_first_sep_is(b, lo + 1, hi, i);
    }
}

/// `last_start` stands behind a separator, or at the start, and no
/// separator follows it.
pub proof fn lemma_last_start(b: Seq<u8>, lo: int, hi: int)
    requires
        0 <= lo <= hi <= b.len(),
    ensures
        lo <= last_start(b, lo, hi) <= hi,
        last_start(b, lo, hi) > lo ==> b[last_start(b, lo, hi) - 1] == SEP,
        forall|k: int| last_start(b, lo, hi) <= k < hi ==> b[k] != SEP,
        lo <= before_last(b, lo, hi) <= hi,
        lo < hi ==> before_last(b, lo, hi) < hi,
    decreases hi - lo,
{
    if lo < hi && b[hi - 1] != SEP {
        lemma_last_start(b, lo, hi - 1);
    }
}

/// Any position behind a separator, or the start, with no separator from
/// it on, is what `last_start` finds.
pub proof fn lemma_last_start_is(b: Seq<u8>, lo: int, hi: int, s: int)
    requires
        0 <= lo <= s <= hi <= b.len(),
        s > lo ==> b[s - 1] == SEP,
        forall|k: int| s <= k < hi ==> b[k] != SEP,
    ensures
        last_start(b, lo, hi) == s,
    decreases hi - s,
{
    if s < hi {
        lemma_last_start_is(b, lo, hi - 1, s);
    }
}

/// A range without separators holds one component at most.
pub proof fn lemma_body_without_sep(b: Seq<u8>, lo: int, hi: int)
    requires
        0 <= lo <= hi <= b.len(),
        forall|k: int| lo <= k < hi ==> b[k] != SEP,
    ensures
        body_components(b, lo, hi) == optional(single_component(b.subrange(lo, hi))),
{
    if lo < hi {
        lemma_first_sep_is(b, lo, hi, hi);
    } else {
        assert(b.subrange(lo, hi).len() == 0);
    }
}

/// The components of a body are those before its last component, followed
/// by what the last component stands for.
pub proof fn lemma_body_split_last(b: Seq<u8>, lo: int, hi: int)
    requires
        0 <= lo < hi <= b.len(),
    ensures
        body_components(b, lo, hi) == body_components(b, lo, before_last(b, lo, hi)) + optional(
            single_component(b.subrange(last_start(b, lo, hi), hi)),
        ),
    decreases hi - lo,
{
    let i = first_sep(b, lo, hi);
    let s = last_start(b, lo, hi);
    lemma_first_sep(b, lo, hi);
    lemma_last_start(b, lo, hi);
    let head = optional(single_component(b.subrange(lo, i)));
    if i == hi {
        // no separator at all
        assert(s == lo) by {
            if s > lo {
                assert(b[s - 1] == SEP);
            }
        }
        assert(body_components(b, lo, lo) =~= Seq::<ComponentView>::empty());
        assert(body_components(b, lo, hi) =~= Seq::<ComponentView>::empty() + head);
    } else {
        assert(s > i) by {
            if s <= i {
                assert(b[i] == SEP);
            }
        }
        if s == i + 1 {
            // the separator at `i` is the last one
            assert(before_last(b, lo, hi) == i);
            lemma_body_without_sep(b, lo, i);
            lemma_body_without_sep(b, i + 1, hi);
        } else {
            lemma_last_start_is(b, i + 1, hi, s);
            lemma_body_split_last(b, i + 1, hi);
            let e = before_last(b, lo, hi);
            assert(e == s - 1);
            assert(before_last(b, i + 1, hi) == e);
            assert(i < e);
            lemma_first_sep_is(b, lo, e, i);
            assert(body_components(b, lo, e) == head + body_components(b, i + 1, e));
            assert(body_components(b, lo, hi) =~= (head + body_components(b, i + 1, e))
                + optional(single_component(b.subrange(s, hi))));
        }
    }
}


/// The range without the empty components and `.` on its right ends on a
/// component that stands for something, if it holds any byte.
pub proof fn lemma_trim_right_end(b: Seq<u8>, lo: int, hi: int)
    requires
        0 <= lo <= hi <= b.len(),
    ensures
        lo <= trim_right_end(b, lo, hi) <= hi,
        trim_right_end(b, lo, hi) > lo ==> single_component(
            b.subrange(last_start(b, lo, trim_right_end(b, lo, hi)), trim_right_end(b, lo, hi)),
        ) is Some,
        body_components(b, lo, trim_right_end(b, lo, hi)) == body_components(b, lo, hi),
        trim_right_end(b, lo, trim_right_end(b, lo, hi)) == trim_right_end(b, lo, hi),
    decreases hi - lo,
{
    if hi > lo {
        lemma_last_start(b, lo, hi);
        let s = last_start(b, lo, hi);
        if single_component(b.subrange(s, hi)) is None {
            let e = before_last(b, lo, hi);
            lemma_trim_right_end(b, lo, e);
            lemma_body_split_last(b, lo, hi);
            assert(body_components(b, lo, hi) =~= body_components(b, lo, e));
        }
    }
}

/// The range without the empty components and `.` on its left starts on a
/// component that stands for something, if it holds any byte.
pub proof fn lemma_trim_left_start(b: Seq<u8>, lo: int, hi: int)
    requires
        0 <= lo <= hi <= b.len(),
    ensures
        lo <= trim_left_start(b, lo, hi) <= hi,
        body_components(b, trim_left_start(b, lo, hi), hi) == body_components(b, lo, hi),
    decreases hi - lo,
{
    if lo < hi {
        lemma_first_sep(b, lo, hi);
        let i = first_sep(b, lo, hi);
        if single_component(b.subrange(lo, i)) is None {
            if i < hi {
                lemma_trim_left_start(b, i + 1, hi);
                assert(body_components(b, lo, hi) =~= body_components(b, i + 1, hi));
            } else {
                assert(body_components(b, lo, hi) =~= body_components(b, hi, hi));
            }
        }
    }
}

/// Where the range `lo..hi` starts once its first component that stands
/// for something is taken away, with what lies before it and the separator
/// behind it; `hi` where it holds no such component.
pub open spec fn after_first(b: Seq<u8>, lo: int, hi: int) -> int {
    let f = trim_left_start(b, lo, hi);
    if f < hi {
        let i = first_sep(b, f, hi);
        if i < hi {
            i + 1
        } else {
            i
        }
    } else {
        hi
    }
}

/// The front of an iteration: where the bytes left start, and how far the
/// front has come.
pub struct Front {
    pub lo: int,
    pub rank: int,
}

/// Where the front of an iteration over the path `b` stands after a
/// component was asked for from the front, where it stood at `at`, the
/// bytes left end at `hi`, and the back has come as far as `back`.
pub open spec fn front_step_of(b: Seq<u8>, hi: int, back: int, root: bool, cur: bool, at: Front) -> Front {
    if at.rank == 3 || back == 3 || at.rank > back {
        at
    } else if back == 0 {
        Front { lo: at.lo, rank: 1 }
    } else if at.rank <= 1 && (root || cur) {
        Front { lo: at.lo + 1, rank: 2 }
    } else if back == 1 {
        Front { lo: at.lo, rank: 2 }
    } else if trim_left_start(b, at.lo, hi) < hi {
        Front { lo: after_first(b, at.lo, hi), rank: 2 }
    } else {
        Front { lo: hi, rank: 3 }
    }
}

/// Where the front of an iteration stands after `n` components were asked
/// for from the front.
pub open spec fn front_walk(
    b: Seq<u8>,
    hi: int,
    back: int,
    root: bool,
    cur: bool,
    at: Front,
    n: nat,
) -> Front
    decreases n,
{
    if n == 0 {
        at
    } else {
        front_step_of(b, hi, back, root, cur, front_walk(b, hi, back, root, cur, at, (n - 1) as nat))
    }
}

/// The path that leads on from the first `n` components of the path `b`:
/// what is left of `b` behind them, without the meaningless components at
/// its ends.
pub open spec fn rest_behind(b: Seq<u8>, n: nat) -> Seq<u8> {
    let at = front_walk(
        b,
        b.len() as int,
        2,
        rooted(b),
        leads_with_cur_dir(b),
        Front { lo: 0, rank: 0 },
        n,
    );
    let start = if at.rank == 2 {
        trim_left_start(b, at.lo, b.len() as int)
    } else {
        at.lo
    };
    let before = if at.rank <= 1 {
        body_start(b)
    } else {
        0
    };
    b.subrange(start, trim_right_end(b, start + before, b.len() as int))
}

/// How far the two ends of an iteration have come.
#[derive(Clone, Copy, Debug, PartialEq, Eq, Structural)]
enum State {
    Prefix,
    StartDir,
    Body,
    Done,
}

impl State {
    spec fn rank(self) -> int {
        match self {
            State::Prefix => 0,
            State::StartDir => 1,
            State::Body => 2,
            State::Done => 3,
        }
    }

    fn order(self) -> (r: u8)
        ensures
            r == self.rank(),
    {
        match self {
            State::Prefix => 0,
            State::StartDir => 1,
            State::Body => 2,
            State::Done => 3,
        }
    }
}

/// Whether the first byte of `s` is a separator.
pub fn has_physical_root(s: &[u8]) -> (r: bool)
    ensures
        r == rooted(s@),
{
    s.len() > 0 && is_sep_byte(s[0])
}

/// Walks over the components of a path, from either end.
#[derive(Clone, Copy, Debug)]
pub struct Components<'a> {
    // The whole path, and the range of it that is left to read.
    path: &'a [u8],
    lo: usize,
    hi: usize,
    // Whether the path starts with a separator.
    has_physical_root: bool,
    // Whether the path starts with a `.` that counts as a component.
    has_cur_dir: bool,
    // What has been handed out from either end so far.
    front: State,
    back: State,
}

impl<'a> Components<'a> {
    /// The path that is walked over.
    pub closed spec fn source(&self) -> Seq<u8> {
        self.path@
    }

    /// Where the bytes that are left to read start.
    pub closed spec fn lo(&self) -> int {
        self.lo as int
    }

    /// Where the bytes that are left to read end.
    pub closed spec fn hi(&self) -> int {
        self.hi as int
    }

    /// Whether the path starts with a separator.
    pub closed spec fn root_mark(&self) -> bool {
        self.has_physical_root
    }

    /// Whether the path starts with a `.` that counts as a component.
    pub closed spec fn cur_dir_mark(&self) -> bool {
        self.has_cur_dir
    }

    /// How far the front has come: 0 and 1 before the start of the path
    /// was handed out, 2 in the body, 3 when done.
    pub closed spec fn front_rank(&self) -> int {
        self.front.rank()
    }

    /// How far the back has come: 2 in the body, 1 when the body is used
    /// up, 0 when the start of the path was handed out, 3 when done.
    pub closed spec fn back_rank(&self) -> int {
        self.back.rank()
    }

    /// How many of the bytes left stand before the body.
    pub open spec fn before_body(&self) -> int {
        if self.front_rank() <= 1 && (self.root_mark() || self.cur_dir_mark()) {
            1
        } else {
            0
        }
    }

    /// Whether nothing is left to hand out.
    pub open spec fn is_finished(&self) -> bool {
        self.front_rank() == 3 || self.back_rank() == 3 || self.front_rank() > self.back_rank()
    }

    /// What holds of every iterator that `Path::components` made, however
    /// far it was moved.
    pub open spec fn wf(&self) -> bool {
        &&& 0 <= self.lo() <= self.hi() <= self.source().len()
        &&& 0 <= self.front_rank() <= 3
        &&& 0 <= self.back_rank() <= 3
        &&& !(self.root_mark() && self.cur_dir_mark())
        &&& (self.front_rank() <= 1 && 1 <= self.back_rank() <= 2) ==> self.lo()
            + self.before_body() <= self.hi()
    }

    /// The components that are left, in order.
    #[verifier::opaque]
    pub open spec fn remaining(&self) -> Seq<ComponentView> {
        if self.is_finished() {
            Seq::empty()
        } else {
            (if self.front_rank() <= 1 && self.back_rank() >= 1 {
                if self.root_mark() {
                    seq![ComponentView::RootDir]
                } else if self.cur_dir_mark() {
                    seq![ComponentView::CurDir]
                } else {
                    Seq::empty()
                }
            } else {
                Seq::empty()
            }) + (if self.back_rank() == 2 {
                body_components(self.source(), self.lo() + self.before_body(), self.hi())
            } else {
                Seq::empty()
            })
        }
    }

    /// Where the path that is left starts, once meaningless components on
    /// its left are dropped.
    pub open spec fn rest_start(&self) -> int {
        if self.front_rank() == 2 {
            trim_left_start(self.source(), self.lo(), self.hi())
        } else {
            self.lo()
        }
    }

    /// Where the path that is left ends, once meaningless components on
    /// its right are dropped.
    pub open spec fn rest_end(&self) -> int {
        if self.back_rank() == 2 {
            trim_right_end(self.source(), self.rest_start() + self.before_body(), self.hi())
        } else {
            self.hi()
        }
    }

    /// The path that is left.
    pub open spec fn rest(&self) -> Seq<u8> {
        self.source().subrange(self.rest_start(), self.rest_end())
    }

    fn len_before_body(&self) -> (r: usize)
        ensures
            r == self.before_body(),
    {
        if self.front.order() <= 1 && (self.has_physical_root || self.has_cur_dir) {
            1
        } else {
            0
        }
    }

    fn finished(&self) -> (r: bool)
        ensures
            r == self.is_finished(),
    {
        self.front == State::Done || self.back == State::Done || self.front.order()
            > self.back.order()
    }

    /// Whether the path that is walked over starts with a separator.
    pub fn has_root(&self) -> (r: bool)
        ensures
            r == self.root_mark(),
    {
        self.has_physical_root
    }

    // What the bytes of one component stand for.
    fn parse_single_component(comp: &'a [u8]) -> (r: Option<Component<'a>>)
        ensures
            r is Some == single_component(comp@) is Some,
            r matches Some(c) ==> Some(c@) == single_component(comp@),
    {
        if comp.len() == 0 {
            None
        } else if comp.len() == 1 && comp[0] == DOT {
            None
        } else if comp.len() == 2 && comp[0] == DOT && comp[1] == DOT {
            Some(Component::ParentDir)
        } else {
            Some(Component::Normal(comp))
        }
    }

    // The first component of the body and how many bytes it takes up,
    // the separator behind it included.
    fn parse_next_component(&self) -> (r: (usize, Option<Component<'a>>))
        requires
            self.wf(),
            self.lo() < self.hi(),
        ensures
            ({
                let i = first_sep(self.source(), self.lo(), self.hi());
                let comp = single_component(self.source().subrange(self.lo(), i));
                &&& self.lo() + r.0 == if i < self.hi() {
                    i + 1
                } else {
                    i
                }
                &&& r.0 >= 1
                &&& r.1 is Some == comp is Some
                &&& r.1 matches Some(c) ==> Some(c@) == comp
            }),
    {
        let i = find_sep(self.path, self.lo, self.hi);
        proof {
            lemma_first_sep(self.path@, self.lo as int, self.hi as int);
        }
        let comp = slice_subrange(self.path, self.lo, i);
        let extra: usize = if i < self.hi {
            1
        } else {
            0
        };
        (i - self.lo + extra, Self::parse_single_component(comp))
    }

    // The last component of the body and how many bytes it takes up, the
    // separator before it included.
    fn parse_next_component_back(&self) -> (r: (usize, Option<Component<'a>>))
        requires
            self.wf(),
            self.back_rank() == 2,
            self.lo() + self.before_body() < self.hi(),
        ensures
            ({
                let start = self.lo() + self.before_body();
                let s = last_start(self.source(), start, self.hi());
                let comp = single_component(self.source().subrange(s, self.hi()));
                &&& self.hi() - r.0 == before_last(self.source(), start, self.hi())
                &&& r.0 >= 1
                &&& r.1 is Some == comp is Some
                &&& r.1 matches Some(c) ==> Some(c@) == comp
            }),
    {
        let start = self.lo + self.len_before_body();
        let s = find_last_start(self.path, start, self.hi);
        proof {
            lemma_last_start(self.path@, start as int, self.hi as int);
        }
        let comp = slice_subrange(self.path, s, self.hi);
        let extra: usize = if s > start {
            1
        } else {
            0
        };
        (self.hi - s + extra, Self::parse_single_component(comp))
    }

    // Drops the empty components and `.` on the left.
    fn trim_left(&mut self)
        requires
            old(self).wf(),
            old(self).front_rank() == 2,
        ensures
            final(self).lo() == trim_left_start(old(self).source(), old(self).lo(), old(self).hi()),
            final(self).hi() == old(self).hi(),
            final(self).source() == old(self).source(),
            final(self).front_rank() == old(self).front_rank(),
            final(self).back_rank() == old(self).back_rank(),
            final(self).root_mark() == old(self).root_mark(),
            final(self).cur_dir_mark() == old(self).cur_dir_mark(),
            final(self).wf(),
    {
        while self.lo < self.hi
            invariant
                self.wf(),
                self.front_rank() == 2,
                old(self).front_rank() == 2,
                self.hi() == old(self).hi(),
                self.source() == old(self).source(),
                self.back_rank() == old(self).back_rank(),
                self.root_mark() == old(self).root_mark(),
                self.cur_dir_mark() == old(self).cur_dir_mark(),
                trim_left_start(self.source(), self.lo(), self.hi()) == trim_left_start(
                    old(self).source(),
                    old(self).lo(),
                    old(self).hi(),
                ),
            decreases self.hi() - self.lo(),
        {
            proof {
                lemma_first_sep(self.path@, self.lo as int, self.hi as int);
            }
            let (size, comp) = self.parse_next_component();
            if comp.is_some() {
                return ;
            } else {
                self.lo = self.lo + size;
            }
        }
    }

    // Drops the empty components and `.` on the right.
    fn trim_right(&mut self)
        requires
            old(self).wf(),
            old(self).back_rank() == 2,
        ensures
            final(self).hi() == trim_right_end(
                old(self).source(),
                old(self).lo() + old(self).before_body(),
                old(self).hi(),
            ),
            final(self).lo() == old(self).lo(),
            final(self).source() == old(self).source(),
            final(self).front_rank() == old(self).front_rank(),
            final(self).back_rank() == old(self).back_rank(),
            final(self).root_mark() == old(self).root_mark(),
            final(self).cur_dir_mark() == old(self).cur_dir_mark(),
            final(self).wf(),
    {
        while self.hi - self.lo > self.len_before_body()
            invariant
                self.wf(),
                self.back_rank() == 2,
                old(self).back_rank() == 2,
                self.lo() + self.before_body() <= self.hi(),
                self.lo() == old(self).lo(),
                self.source() == old(self).source(),
                self.front_rank() == old(self).front_rank(),
                self.root_mark() == old(self).root_mark(),
                self.cur_dir_mark() == old(self).cur_dir_mark(),
                trim_right_end(self.source(), self.lo() + self.before_body(), self.hi())
                    == trim_right_end(
                    old(self).source(),
                    old(self).lo() + old(self).before_body(),
                    old(self).hi(),
                ),
            decreases self.hi() - self.lo(),
        {
            proof {
                lemma_last_start(
                    self.path@,
                    self.lo as int + self.before_body(),
                    self.hi as int,
                );
            }
            let (size, comp) = self.parse_next_component_back();
            if comp.is_some() {
                return ;
            } else {
                self.hi = self.hi - size;
            }
        }
    }

    /// The path that is left to walk over.
    pub fn as_path(&self) -> (r: Path<'a>)
        requires
            self.wf(),
        ensures
            r@ == self.rest(),
    {
        let mut comps = *self;
        if comps.front == State::Body {
            comps.trim_left();
        }
        if comps.back == State::Body {
            comps.trim_right();
        }
        proof {
            lemma_trim_left_start(self.path@, self.lo as int, self.hi as int);
            if self.back.rank() == 2 {
                lemma_trim_right_end(
                    self.path@,
                    comps.lo as int + self.before_body(),
                    self.hi as int,
                );
            }
        }
        Path { inner: slice_subrange(comps.path, comps.lo, comps.hi) }
    }

    /// The next component from the front, which stays in place.
    pub fn peek(&self) -> (r: Option<Component<'a>>)
        requires
            self.wf(),
        ensures
            self.remaining().len() == 0 ==> r is None,
            self.remaining().len() > 0 ==> r is Some && r->Some_0@ == self.remaining()[0],
    {
        let mut c = *self;
        c.next()
    }

    /// Hands out the next component from the front.
    #[verifier::rlimit(50)]
    pub fn next(&mut self) -> (r: Option<Component<'a>>)
        requires
            old(self).wf(),
        ensures
            final(self).wf(),
            final(self).source() == old(self).source(),
            final(self).hi() == old(self).hi(),
            final(self).back_rank() == old(self).back_rank(),
            final(self).root_mark() == old(self).root_mark(),
            final(self).cur_dir_mark() == old(self).cur_dir_mark(),
            old(self).remaining().len() == 0 ==> r is None && final(self).remaining().len() == 0,
            old(self).remaining().len() > 0 ==> r is Some && r->Some_0@ == old(
                self,
            ).remaining()[0] && final(self).remaining() == old(self).remaining().drop_first(),
            old(self).front_step(r, final(self).front()),
    {
        let ghost f = trim_left_start(self.source(), self.lo(), self.hi());
        proof {
            lemma_trim_left_start(self.source(), self.lo(), self.hi());
        }
        while !self.finished()
            invariant
                self.wf(),
                self.source() == old(self).source(),
                self.hi() == old(self).hi(),
                self.back_rank() == old(self).back_rank(),
                self.root_mark() == old(self).root_mark(),
                self.cur_dir_mark() == old(self).cur_dir_mark(),
                self.remaining() == old(self).remaining(),
                f == trim_left_start(old(self).source(), old(self).lo(), old(self).hi()),
                old(self).is_finished() ==> self.front() == old(self).front(),
                self.front_rank() >= old(self).front_rank(),
                !old(self).is_finished() ==> {
                    &&& self.front_rank() <= 1 ==> self.lo() == old(self).lo() && old(
                        self,
                    ).front_rank() <= 1
                    &&& self.front_rank() >= 2 && old(self).front_rank() <= 1 ==> !self.root_mark()
                        && !self.cur_dir_mark()
                    &&& self.back_rank() == 0 ==> self.front_rank() <= 1
                    &&& self.front_rank() == 2 && self.back_rank() != 2 ==> self.lo() == old(
                        self,
                    ).lo()
                    &&& self.front_rank() == 2 && self.back_rank() == 2 ==> old(self).lo()
                        <= self.lo() <= self.hi() && trim_left_start(
                        self.source(),
                        self.lo(),
                        self.hi(),
                    ) == f
                    &&& self.front_rank() == 3 ==> self.back_rank() == 2 && self.lo() == self.hi()
                        && f == self.hi()
                },
            decreases 3 - self.front_rank() + self.hi() - self.lo(),
        {
            proof {
                reveal(Components::remaining);
            }
            match self.front {
                State::Prefix => {
                    self.front = State::StartDir;
                    assert(self.remaining() =~= old(self).remaining());
                },
                State::StartDir => {
                    let ghost before = *self;
                    self.front = State::Body;
                    if self.has_physical_root {
                        self.lo = self.lo + 1;
                        assert(self.remaining() =~= before.remaining().drop_first());
                        return Some(Component::RootDir);
                    } else if self.has_cur_dir {
                        self.lo = self.lo + 1;
                        assert(self.remaining() =~= before.remaining().drop_first());
                        return Some(Component::CurDir);
                    }
                    assert(self.remaining() =~= before.remaining());
                },
                State::Body => {
                    let ghost before = *self;
                    if self.lo < self.hi {
                        proof {
                            lemma_first_sep(self.path@, self.lo as int, self.hi as int);
                        }
                        let (size, comp) = self.parse_next_component();
                        self.lo = self.lo + size;
                        proof {
                            let i = first_sep(before.source(), before.lo(), before.hi());
                            if i >= before.hi() {
                                assert(body_components(self.source(), self.lo(), self.hi())
                                    =~= Seq::<ComponentView>::empty());
                            }
                        }
                        if comp.is_some() {
                            assert(self.remaining() =~= before.remaining().drop_first());
                            return comp;
                        }
                        assert(self.remaining() =~= before.remaining());
                    } else {
                        self.front = State::Done;
                        assert(before.remaining() =~= Seq::<ComponentView>::empty());
                    }
                },
                State::Done => {
                    return None;
                },
            }
        }
        proof {
            reveal(Components::remaining);
        }
        None
    }

    /// Hands out the next component from the back.
    #[verifier::rlimit(50)]
    pub fn next_back(&mut self) -> (r: Option<Component<'a>>)
        requires
            old(self).wf(),
        ensures
            final(self).wf(),
            final(self).source() == old(self).source(),
            final(self).lo() == old(self).lo(),
            final(self).front_rank() == old(self).front_rank(),
            final(self).root_mark() == old(self).root_mark(),
            final(self).cur_dir_mark() == old(self).cur_dir_mark(),
            old(self).remaining().len() == 0 ==> r is None && final(self).remaining().len() == 0,
            old(self).remaining().len() > 0 ==> r is Some && r->Some_0@ == old(
                self,
            ).remaining().last() && final(self).remaining() == old(self).remaining().drop_last(),
            old(self).back_step(r, final(self).hi(), final(self).back_rank()),
    {
        let ghost start = self.lo() + self.before_body();
        let ghost end = trim_right_end(self.source(), start, self.hi());
        proof {
            if self.back_rank() == 2 && !self.is_finished() {
                lemma_trim_right_end(self.source(), start, self.hi());
            }
        }
        while !self.finished()
            invariant
                self.wf(),
                self.source() == old(self).source(),
                self.lo() == old(self).lo(),
                self.front_rank() == old(self).front_rank(),
                self.root_mark() == old(self).root_mark(),
                self.cur_dir_mark() == old(self).cur_dir_mark(),
                self.remaining() == old(self).remaining(),
                start == old(self).lo() + old(self).before_body(),
                end == trim_right_end(old(self).source(), start, old(self).hi()),
                old(self).is_finished() ==> self.hi() == old(self).hi() && self.back_rank() == old(
                    self,
                ).back_rank(),
                old(self).back_rank() <= 1 && !old(self).is_finished() ==> {
                    &&& self.hi() == old(self).hi()
                    &&& self.back_rank() <= old(self).back_rank()
                    &&& self.back_rank() < old(self).back_rank() ==> !self.root_mark()
                        && !self.cur_dir_mark()
                },
                old(self).back_rank() == 2 && !old(self).is_finished() ==> {
                    &&& start <= end
                    &&& self.back_rank() != 3
                    &&& self.back_rank() == 2 ==> start <= self.hi() && trim_right_end(
                        self.source(),
                        start,
                        self.hi(),
                    ) == end
                    &&& self.back_rank() <= 1 ==> self.hi() == end && end == start
                    &&& self.back_rank() == 0 ==> !self.root_mark() && !self.cur_dir_mark()
                        && self.front_rank() <= 1
                },
            decreases
                    (if self.back_rank() == 3 {
                        0int
                    } else {
                        self.back_rank() + 1
                    }) + self.hi() - self.lo(),
        {
            proof {
                reveal(Components::remaining);
            }
            match self.back {
                State::Body => {
                    let ghost before = *self;
                    if self.hi - self.lo > self.len_before_body() {
                        proof {
                            lemma_last_start(self.path@, start, self.hi as int);
                            lemma_body_split_last(self.path@, start, self.hi as int);
                        }
                        let (size, comp) = self.parse_next_component_back();
                        self.hi = self.hi - size;
                        if comp.is_some() {
                            assert(self.remaining() =~= before.remaining().drop_last());
                            assert(before.remaining().last() == comp->Some_0@);
                            return comp;
                        }
                        assert(self.remaining() =~= before.remaining());
                    } else {
                        self.back = State::StartDir;
                        assert(body_components(before.source(), start, before.hi())
                            =~= Seq::<ComponentView>::empty());
                        assert(self.remaining() =~= before.remaining());
                    }
                },
                State::StartDir => {
                    let ghost before = *self;
                    self.back = State::Prefix;
                    if self.has_physical_root {
                        self.hi = self.hi - 1;
                        assert(self.remaining() =~= before.remaining().drop_last());
                        return Some(Component::RootDir);
                    } else if self.has_cur_dir {
                        self.hi = self.hi - 1;
                        assert(self.remaining() =~= before.remaining().drop_last());
                        return Some(Component::CurDir);
                    }
                    assert(self.remaining() =~= before.remaining());
                },
                State::Prefix => {
                    self.back = State::Done;
                    return None;
                },
                State::Done => {
                    return None;
                },
            }
        }
        proof {
            reveal(Components::remaining);
        }
        None
    }

    /// Where the front stands.
    pub open spec fn front(&self) -> Front {
        Front { lo: self.lo(), rank: self.front_rank() }
    }

    /// What one call of `next` does: `r` is what it hands out, and `front`
    /// where the front then stands.
    pub open spec fn front_step(&self, r: Option<Component<'a>>, front: Front) -> bool {
        &&& front == front_step_of(
            self.source(),
            self.hi(),
            self.back_rank(),
            self.root_mark(),
            self.cur_dir_mark(),
            self.front(),
        )
        &&& if self.is_finished() || self.back_rank() == 0 {
            r is None
        } else if self.front_rank() <= 1 && self.root_mark() {
            r matches Some(c) && c@ == ComponentView::RootDir
        } else if self.front_rank() <= 1 && self.cur_dir_mark() {
            r matches Some(c) && c@ == ComponentView::CurDir
        } else if self.back_rank() == 1 {
            r is None
        } else {
            let f = trim_left_start(self.source(), self.lo(), self.hi());
            if f < self.hi() {
                r matches Some(c) && Some(c@) == single_component(
                    self.source().subrange(f, first_sep(self.source(), f, self.hi())),
                )
            } else {
                r is None
            }
        }
    }

    /// What one call of `next_back` does: `r` is what it hands out, `hi`
    /// where the bytes left then end, and `back` how far the back has then
    /// come.
    pub open spec fn back_step(&self, r: Option<Component<'a>>, hi: int, back: int) -> bool {
        let start = self.lo() + self.before_body();
        let end = if self.back_rank() == 2 {
            trim_right_end(self.source(), start, self.hi())
        } else {
            self.hi()
        };
        if self.is_finished() {
            r is None && hi == self.hi() && back == self.back_rank()
        } else if self.back_rank() == 2 && end > start {
            &&& r matches Some(c)
            &&& Some(c@) == single_component(
                self.source().subrange(last_start(self.source(), start, end), end),
            )
            &&& hi == before_last(self.source(), start, end)
            &&& back == 2
        } else if self.back_rank() == 0 {
            r is None && hi == end && back == 3
        } else if self.front_rank() == 2 {
            r is None && hi == end && back == 1
        } else if self.root_mark() {
            r matches Some(c) && c@ == ComponentView::RootDir && hi == end - 1 && back == 0
        } else if self.cur_dir_mark() {
            r matches Some(c) && c@ == ComponentView::CurDir && hi == end - 1 && back == 0
        } else {
            r is None && hi == end && back == if self.front_rank() == 1 {
                0int
            } else {
                3int
            }
        }
    }
}

// The position of the first separator in `lo..hi`, or `hi`.
fn find_sep(path: &[u8], lo: usize, hi: usize) -> (i: usize)
    requires
        lo <= hi <= path@.len(),
    ensures
        i == first_sep(path@, lo as int, hi as int),
{
    let mut i = lo;
    while i < hi && !is_sep_byte(path[i])
        invariant
            lo <= i <= hi <= path@.len(),
            first_sep(path@, i as int, hi as int) == first_sep(path@, lo as int, hi as int),
        decreases hi - i,
    {
        i += 1;
    }
    i
}

// Where the last component of `lo..hi` starts.
fn find_last_start(path: &[u8], lo: usize, hi: usize) -> (s: usize)
    requires
        lo <= hi <= path@.len(),
    ensures
        s == last_start(path@, lo as int, hi as int),
{
    let mut s = hi;
    while s > lo && !is_sep_byte(path[s - 1])
        invariant
            lo <= s <= hi <= path@.len(),
            last_start(path@, lo as int, s as int) == last_start(path@, lo as int, hi as int),
        decreases s - lo,
    {
        s -= 1;
    }
    s
}

/// A borrowed path.
#[derive(Clone, Copy, Debug)]
pub struct Path<'a> {
    inner: &'a [u8],
}

impl<'a> View for Path<'a> {
    type V = Seq<u8>;

    closed spec fn view(&self) -> Seq<u8> {
        self.inner@
    }
}


/// Where the parent of the path `b` ends, if it has one: before the last
/// component of `b`, and before the empty components and `.` that stand
/// before that. A path that is only a leading `.` has the empty path for
/// its parent; a path without components, or with the root alone, has none.
pub open spec fn parent_end(b: Seq<u8>) -> Option<int> {
    let start = body_start(b);
    let end = trim_right_end(b, start, b.len() as int);
    if end > start {
        Some(trim_right_end(b, start, before_last(b, start, end)))
    } else if leads_with_cur_dir(b) {
        Some(0)
    } else {
        None
    }
}

/// The parent of the path `b`, if it has one.
pub open spec fn parent_of(b: Seq<u8>) -> Option<Seq<u8>> {
    match parent_end(b) {
        Some(n) => Some(b.subrange(0, n)),
        None => None,
    }
}

/// The last component of the path `b`, if it is a name.
pub open spec fn file_name_of(b: Seq<u8>) -> Option<Seq<u8>> {
    let start = body_start(b);
    let end = trim_right_end(b, start, b.len() as int);
    if end > start {
        match single_component(b.subrange(last_start(b, start, end), end)) {
            Some(ComponentView::Normal(n)) => Some(n),
            _ => None,
        }
    } else {
        None
    }
}

/// The position of the last `.` of `n` below `hi`, or -1 where there is none.
pub open spec fn last_dot(n: Seq<u8>, hi: int) -> int
    decreases hi,
{
    if hi <= 0 {
        -1
    } else if n[hi - 1] == DOT {
        hi - 1
    } else {
        last_dot(n, hi - 1)
    }
}

/// Whether a file name splits into a stem and an extension: it is not `..`,
/// and its last `.` is not its first byte.
pub open spec fn has_extension(name: Seq<u8>) -> bool {
    !(name.len() == 2 && name[0] == DOT && name[1] == DOT) && last_dot(name, name.len() as int)
        > 0
}

/// The part of a file name before its extension.
pub open spec fn stem_of(name: Seq<u8>) -> Seq<u8> {
    if has_extension(name) {
        name.subrange(0, last_dot(name, name.len() as int))
    } else {
        name
    }
}

/// The part of a file name behind its last `.`, if it has an extension.
pub open spec fn extension_of(name: Seq<u8>) -> Option<Seq<u8>> {
    if has_extension(name) {
        Some(name.subrange(last_dot(name, name.len() as int) + 1, name.len() as int))
    } else {
        None
    }
}

/// The stem of the file name of the path `b`.
pub open spec fn file_stem_of(b: Seq<u8>) -> Option<Seq<u8>> {
    match file_name_of(b) {
        Some(n) => Some(stem_of(n)),
        None => None,
    }
}

/// The extension of the file name of the path `b`.
pub open spec fn path_extension_of(b: Seq<u8>) -> Option<Seq<u8>> {
    match file_name_of(b) {
        Some(n) => extension_of(n),
        None => None,
    }
}

/// `a` with `p` joined onto it: `p` alone where it is rooted, else `a`, a
/// separator unless `a` is empty or ends in one, and `p`.
pub open spec fn joined(a: Seq<u8>, p: Seq<u8>) -> Seq<u8> {
    if rooted(p) {
        p
    } else if a.len() > 0 && a.last() != SEP {
        a + seq![SEP] + p
    } else {
        a + p
    }
}

/// The path `b` with its file name replaced by `name`, or with `name`
/// joined onto it where it has no file name.
pub open spec fn with_name(b: Seq<u8>, name: Seq<u8>) -> Seq<u8> {
    if file_name_of(b) is Some && parent_of(b) is Some {
        joined(parent_of(b)->Some_0, name)
    } else {
        joined(b, name)
    }
}

/// The file name that has the stem of `name` and the extension `ext`.
pub open spec fn renamed(name: Seq<u8>, ext: Seq<u8>) -> Seq<u8> {
    if ext.len() > 0 {
        stem_of(name) + seq![DOT] + ext
    } else {
        stem_of(name)
    }
}

/// Whether `p` is how `s` begins.
pub open spec fn is_prefix_of(p: Seq<ComponentView>, s: Seq<ComponentView>) -> bool {
    p.len() <= s.len() && s.subrange(0, p.len() as int) =~= p
}

/// Whether `p` is how `s` ends.
pub open spec fn is_suffix_of(p: Seq<ComponentView>, s: Seq<ComponentView>) -> bool {
    p.len() <= s.len() && s.subrange(s.len() - p.len(), s.len() as int) =~= p
}

// Whether the path starts with a `.` that counts as a component.
fn include_cur_dir(path: &[u8]) -> (r: bool)
    ensures
        r == leads_with_cur_dir(path@),
{
    if path.len() == 0 || path[0] != DOT {
        false
    } else if path.len() == 1 {
        true
    } else {
        is_sep_byte(path[1])
    }
}

// Whether two byte strings hold the same bytes.
fn same_bytes(a: &[u8], b: &[u8]) -> (r: bool)
    ensures
        r == (a@ == b@),
{
    if a.len() != b.len() {
        return false;
    }
    let mut i: usize = 0;
    while i < a.len()
        invariant
            i <= a@.len(),
            a@.len() == b@.len(),
            forall|k: int| 0 <= k < i ==> a@[k] == b@[k],
        decreases a@.len() - i,
    {
        if a[i] != b[i] {
            return false;
        }
        i += 1;
    }
    assert(a@ =~= b@);
    true
}

// Whether two components are the same kind with the same text.
fn same_component<'a, 'b>(a: Component<'a>, b: Component<'b>) -> (r: bool)
    ensures
        r == (a@ == b@),
{
    match (a, b) {
        (Component::Prefix(x), Component::Prefix(y)) => same_bytes(x.as_os_str(), y.as_os_str()),
        (Component::RootDir, Component::RootDir) => true,
        (Component::CurDir, Component::CurDir) => true,
        (Component::ParentDir, Component::ParentDir) => true,
        (Component::Normal(x), Component::Normal(y)) => same_bytes(x, y),
        _ => false,
    }
}

// Moves `iter` past the components of `prefix`, if it starts with them.
fn iter_after<'a, 'b>(from: Components<'a>, start_with: Components<'b>) -> (r: Option<
    Components<'a>,
>)
    requires
        from.wf(),
        start_with.wf(),
    ensures
        r is Some == is_prefix_of(start_with.remaining(), from.remaining()),
        r matches Some(c) ==> c.wf() && c.source() == from.source() && c.remaining()
            == from.remaining().skip(start_with.remaining().len() as int),
        r matches Some(c) ==> c.hi() == from.hi() && c.back_rank() == from.back_rank()
            && c.root_mark() == from.root_mark() && c.cur_dir_mark() == from.cur_dir_mark()
            && c.front() == front_walk(
            from.source(),
            from.hi(),
            from.back_rank(),
            from.root_mark(),
            from.cur_dir_mark(),
            from.front(),
            start_with.remaining().len(),
        ),
{
    let mut iter = from;
    let mut prefix = start_with;
    let ghost whole = iter.remaining();
    let ghost start = prefix.remaining();
    let ghost mut done: int = 0;
    loop
        invariant
            iter.wf(),
            prefix.wf(),
            iter.source() == from.source(),
            iter.hi() == from.hi(),
            iter.back_rank() == from.back_rank(),
            iter.root_mark() == from.root_mark(),
            iter.cur_dir_mark() == from.cur_dir_mark(),
            iter.front() == front_walk(
                from.source(),
                from.hi(),
                from.back_rank(),
                from.root_mark(),
                from.cur_dir_mark(),
                from.front(),
                done as nat,
            ),
            0 <= done <= start.len(),
            done <= whole.len(),
            iter.remaining() == whole.skip(done),
            prefix.remaining() == start.skip(done),
            forall|k: int| 0 <= k < done ==> whole[k] == start[k],
            whole == from.remaining(),
            start == start_with.remaining(),
        decreases start.len() - done,
    {
        let mut iter_next = iter;
        let x = iter_next.next();
        let y = prefix.next();
        match (x, y) {
            (Some(x), Some(y)) => {
                if !same_component(x, y) {
                    assert(whole[done] != start[done]);
                    return None;
                }
            },
            (Some(_), None) => {
                assert(start.len() == done);
                assert(whole.subrange(0, done) =~= start);
                return Some(iter);
            },
            (None, None) => {
                assert(start.len() == done);
                assert(whole.subrange(0, done) =~= start);
                return Some(iter);
            },
            (None, Some(_)) => {
                assert(whole.len() == done);
                return None;
            },
        }
        proof {
            assert(whole.skip(done).drop_first() =~= whole.skip(done + 1));
            assert(start.skip(done).drop_first() =~= start.skip(done + 1));
            done = done + 1;
        }
        iter = iter_next;
    }
}

// Moves `iter` back before the components of `suffix`, if it ends with them.
fn iter_before<'a, 'b>(from: Components<'a>, end_with: Components<'b>) -> (r: bool)
    requires
        from.wf(),
        end_with.wf(),
    ensures
        r == is_suffix_of(end_with.remaining(), from.remaining()),
{
    let mut iter = from;
    let mut suffix = end_with;
    let ghost whole = iter.remaining();
    let ghost end = suffix.remaining();
    let ghost mut done: int = 0;
    loop
        invariant
            iter.wf(),
            suffix.wf(),
            0 <= done <= end.len(),
            done <= whole.len(),
            iter.remaining() == whole.take(whole.len() - done),
            suffix.remaining() == end.take(end.len() - done),
            forall|k: int|
                whole.len() - done <= k < whole.len() ==> #[trigger] whole[k] == end[k
                    - whole.len() + end.len()],
            whole == from.remaining(),
            end == end_with.remaining(),
        decreases end.len() - done,
    {
        let x = iter.next_back();
        let y = suffix.next_back();
        match (x, y) {
            (Some(x), Some(y)) => {
                if !same_component(x, y) {
                    assert(whole[whole.len() - 1 - done] != end[end.len() - 1 - done]);
                    proof {
                        if end.len() <= whole.len() {
                            let sub = whole.subrange(whole.len() - end.len(), whole.len() as int);
                            assert(sub[end.len() - 1 - done] == whole[whole.len() - 1 - done]);
                        }
                    }
                    return false;
                }
            },
            (_, None) => {
                assert(end.len() == done);
                assert(whole.subrange(whole.len() - done, whole.len() as int) =~= end);
                return true;
            },
            (None, Some(_)) => {
                assert(whole.len() == done);
                return false;
            },
        }
        proof {
            assert(whole.take(whole.len() - done).drop_last() =~= whole.take(
                whole.len() - (done + 1),
            ));
            assert(end.take(end.len() - done).drop_last() =~= end.take(end.len() - (done + 1)));
            done = done + 1;
        }
    }
}

// The part of a file name before its last `.` and the part behind it. A
// name without a `.` is all behind; `..` and a name whose only `.` comes
// first are all before.
fn split_file_at_dot<'a>(file: &'a [u8]) -> (r: (Option<&'a [u8]>, Option<&'a [u8]>))
    ensures
        has_extension(file@) ==> r.0 is Some && r.0->Some_0@ == stem_of(file@) && r.1 is Some
            && Some(r.1->Some_0@) == extension_of(file@),
        !has_extension(file@) ==> (r.0 is Some) != (r.1 is Some),
        !has_extension(file@) && r.0 is Some ==> r.0->Some_0@ == file@,
        !has_extension(file@) && r.1 is Some ==> r.1->Some_0@ == file@,
{
    if file.len() == 2 && file[0] == DOT && file[1] == DOT {
        return (Some(file), None);
    }
    let mut i = file.len();
    while i > 0 && file[i - 1] != DOT
        invariant
            i <= file@.len(),
            last_dot(file@, i as int) == last_dot(file@, file@.len() as int),
        decreases i,
    {
        i -= 1;
    }
    if i == 0 {
        // no `.` at all
        (None, Some(file))
    } else if i == 1 {
        // the only `.` comes first
        (Some(file), None)
    } else {
        (Some(slice_subrange(file, 0, i - 1)), Some(slice_subrange(file, i, file.len())))
    }
}

// Adds the bytes of `s` to the end of `v`.
fn append_bytes(v: &mut Vec<u8>, s: &[u8])
    ensures
        final(v)@ == old(v)@ + s@,
{
    let mut i: usize = 0;
    while i < s.len()
        invariant
            i <= s@.len(),
            v@ == old(v)@ + s@.subrange(0, i as int),
        decreases s@.len() - i,
    {
        v.push(s[i]);
        i += 1;
        assert(v@ =~= old(v)@ + s@.subrange(0, i as int));
    }
    assert(s@.subrange(0, i as int) =~= s@);
}

/// The text of `bytes`, where they are valid UTF-8.
///
/// This is `core::str::from_utf8`: it answers with a string exactly for the
/// byte strings that are well-formed UTF-8, and the string then has those
/// bytes. Nothing of this is proved here.
#[verifier::external_body]
fn utf8_text<'a>(bytes: &'a [u8]) -> (r: Option<&'a str>)
    ensures
        r is Some == valid_utf8(bytes@),
        r matches Some(s) ==> s.spec_bytes() == bytes@,
{
    core::str::from_utf8(bytes).ok()
}

impl<'a> Path<'a> {
    /// The path that `s` spells.
    pub fn new(s: &'a str) -> (r: Path<'a>)
        ensures
            r@ == s.spec_bytes(),
    {
        Path { inner: s.as_bytes() }
    }

    /// The path with the bytes `bytes`.
    pub fn from_bytes(bytes: &'a [u8]) -> (r: Path<'a>)
        ensures
            r@ == bytes@,
    {
        Path { inner: bytes }
    }

    /// The bytes of the path.
    pub fn as_os_str(&self) -> (r: &'a [u8])
        ensures
            r@ == self@,
    {
        self.inner
    }

    /// The path as text, where its bytes are valid UTF-8.
    pub fn to_str(&self) -> (r: Option<&'a str>)
        ensures
            r is Some == valid_utf8(self@),
            r matches Some(s) ==> s.spec_bytes() == self@,
    {
        utf8_text(self.inner)
    }

    /// The path as text; what is not UTF-8 in it shows as the replacement
    /// character.
    pub fn to_string_lossy(&self) -> (r: String)
        ensures
            r@ == lossy_text(self@),
    {
        lossy_string(self.inner)
    }

    /// An owned copy of the path.
    pub fn to_path_buf(&self) -> (r: PathBuf)
        ensures
            r@ == self@,
    {
        PathBuf { inner: slice_to_vec(self.inner) }
    }

    /// Whether the path names a place without regard to a current
    /// directory, which is when it starts at the root.
    pub fn is_absolute(&self) -> (r: bool)
        ensures
            r == rooted(self@),
    {
        self.has_root()
    }

    /// Whether the path is not absolute.
    pub fn is_relative(&self) -> (r: bool)
        ensures
            r == !rooted(self@),
    {
        !self.is_absolute()
    }

    /// The volume prefix of the path. There is none.
    pub fn prefix(&self) -> (r: Option<Prefix<'a>>)
        ensures
            r is None,
    {
        parse_prefix(self.inner)
    }

    /// Whether the path starts at the root.
    pub fn has_root(&self) -> (r: bool)
        ensures
            r == rooted(self@),
    {
        self.components().has_root()
    }

    /// The path without its last component. A path that ends in the root,
    /// or has no component, has no parent.
    pub fn parent(&self) -> (r: Option<Path<'a>>)
        ensures
            r is Some == parent_of(self@) is Some,
            r matches Some(p) ==> Some(p@) == parent_of(self@),
    {
        let mut comps = self.components();
        let comp = comps.next_back();
        match comp {
            Some(Component::Normal(_)) | Some(Component::CurDir) | Some(Component::ParentDir) => {
                Some(comps.as_path())
            },
            _ => None,
        }
    }

    /// The last component of the path, if it is a name.
    pub fn file_name(&self) -> (r: Option<&'a [u8]>)
        ensures
            r is Some == file_name_of(self@) is Some,
            r matches Some(n) ==> Some(n@) == file_name_of(self@),
    {
        let mut comps = self.components();
        match comps.next_back() {
            Some(Component::Normal(p)) => Some(p),
            _ => None,
        }
    }

    /// Whether the components of `base` are the first components of `self`.
    pub fn starts_with(&self, base: Path<'_>) -> (r: bool)
        ensures
            r == is_prefix_of(path_components(base@), path_components(self@)),
    {
        iter_after(self.components(), base.components()).is_some()
    }

    /// Whether the components of `child` are the last components of `self`.
    pub fn ends_with(&self, child: Path<'_>) -> (r: bool)
        ensures
            r == is_suffix_of(path_components(child@), path_components(self@)),
    {
        iter_before(self.components(), child.components())
    }

    /// The path that leads from `base` to `self`, where `self` starts with
    /// `base`: what is left of `self` behind the components of `base`.
    pub fn relative_from(&self, base: Path<'_>) -> (r: Option<Path<'a>>)
        ensures
            r is Some == is_prefix_of(path_components(base@), path_components(self@)),
            r matches Some(p) ==> p@ == rest_behind(self@, path_components(base@).len()),
    {
        match iter_after(self.components(), base.components()) {
            Some(c) => Some(c.as_path()),
            None => None,
        }
    }

    /// The stem of the file name: the file name without its extension.
    pub fn file_stem(&self) -> (r: Option<&'a [u8]>)
        ensures
            r is Some == file_stem_of(self@) is Some,
            r matches Some(n) ==> Some(n@) == file_stem_of(self@),
    {
        match self.file_name() {
            Some(name) => {
                let (before, after) = split_file_at_dot(name);
                match before {
                    Some(b) => Some(b),
                    None => after,
                }
            },
            None => None,
        }
    }

    /// The extension of the file name: what stands behind its last `.`,
    /// unless that `.` comes first.
    pub fn extension(&self) -> (r: Option<&'a [u8]>)
        ensures
            r is Some == path_extension_of(self@) is Some,
            r matches Some(n) ==> Some(n@) == path_extension_of(self@),
    {
        match self.file_name() {
            Some(name) => {
                let (before, after) = split_file_at_dot(name);
                match before {
                    Some(_) => after,
                    None => None,
                }
            },
            None => None,
        }
    }

    /// An owned path that is `self` with `path` joined onto it.
    pub fn join(&self, path: Path<'_>) -> (r: PathBuf)
        ensures
            r@ == joined(self@, path@),
    {
        let mut buf = self.to_path_buf();
        buf.push(path);
        buf
    }

    /// An owned path that is `self` with the file name `file_name`.
    pub fn with_file_name(&self, file_name: &[u8]) -> (r: PathBuf)
        ensures
            r@ == with_name(self@, file_name@),
    {
        let mut buf = self.to_path_buf();
        buf.set_file_name(file_name);
        buf
    }

    /// An owned path that is `self` with the extension `extension`, or
    /// `self` where it has no file name.
    pub fn with_extension(&self, extension: &[u8]) -> (r: PathBuf)
        ensures
            file_name_of(self@) is None ==> r@ == self@,
            file_name_of(self@) matches Some(n) ==> r@ == with_name(self@, renamed(n, extension@)),
    {
        let mut buf = self.to_path_buf();
        let _ = buf.set_extension(extension);
        buf
    }

    /// An iterator over the components of the path.
    pub fn components(&self) -> (r: Components<'a>)
        ensures
            r.wf(),
            r.source() == self@,
            r.lo() == 0,
            r.hi() == self@.len(),
            r.front_rank() == 0,
            r.back_rank() == 2,
            r.root_mark() == rooted(self@),
            r.cur_dir_mark() == leads_with_cur_dir(self@),
            r.remaining() == path_components(self@),
    {
        let root = has_physical_root(self.inner);
        let cur = !root && include_cur_dir(self.inner);
        let r = Components {
            path: self.inner,
            lo: 0,
            hi: self.inner.len(),
            has_physical_root: root,
            has_cur_dir: cur,
            front: State::Prefix,
            back: State::Body,
        };
        proof {
            reveal(Components::remaining);
        }
        assert(r.remaining() =~= path_components(self@));
        r
    }

    /// An iterator over the texts of the components of the path.
    pub fn iter(&self) -> (r: Iter<'a>)
        ensures
            r.wf(),
            r.remaining() == path_components(self@),
            r.walk().source() == self@,
            r.walk().lo() == 0,
            r.walk().hi() == self@.len(),
            r.walk().front_rank() == 0,
            r.walk().back_rank() == 2,
            r.walk().root_mark() == rooted(self@),
            r.walk().cur_dir_mark() == leads_with_cur_dir(self@),
    {
        Iter { inner: self.components() }
    }

    /// The path in a form that can be shown as text.
    pub fn display(&self) -> (r: Display<'a>)
        ensures
            r@ == self@,
    {
        Display { path: *self }
    }
}

/// Walks over the texts of the components of a path.
#[derive(Clone, Copy, Debug)]
pub struct Iter<'a> {
    inner: Components<'a>,
}

impl<'a> Iter<'a> {
    /// The iterator over the components that this one hands out the texts
    /// of.
    pub closed spec fn walk(&self) -> Components<'a> {
        self.inner
    }

    /// What holds of every iterator that `Path::iter` made.
    pub open spec fn wf(&self) -> bool {
        self.walk().wf()
    }

    /// The components that are left, in order.
    pub open spec fn remaining(&self) -> Seq<ComponentView> {
        self.walk().remaining()
    }

    /// The path that is left.
    pub open spec fn rest(&self) -> Seq<u8> {
        self.walk().rest()
    }

    /// The path that is left to walk over.
    pub fn as_path(&self) -> (r: Path<'a>)
        requires
            self.wf(),
        ensures
            r@ == self.rest(),
    {
        self.inner.as_path()
    }

    /// Hands out the text of the next component from the front.
    pub fn next(&mut self) -> (r: Option<&'a [u8]>)
        requires
            old(self).wf(),
        ensures
            final(self).wf(),
            old(self).remaining().len() == 0 ==> r is None && final(self).remaining().len() == 0,
            old(self).remaining().len() > 0 ==> r is Some && r->Some_0@ == component_text(
                old(self).remaining()[0],
            ) && final(self).remaining() == old(self).remaining().drop_first(),
            final(self).walk().source() == old(self).walk().source(),
            final(self).walk().hi() == old(self).walk().hi(),
            final(self).walk().back_rank() == old(self).walk().back_rank(),
            final(self).walk().root_mark() == old(self).walk().root_mark(),
            final(self).walk().cur_dir_mark() == old(self).walk().cur_dir_mark(),
            final(self).walk().front() == front_step_of(
                old(self).walk().source(),
                old(self).walk().hi(),
                old(self).walk().back_rank(),
                old(self).walk().root_mark(),
                old(self).walk().cur_dir_mark(),
                old(self).walk().front(),
            ),
    {
        match self.inner.next() {
            Some(c) => Some(c.as_os_str()),
            None => None,
        }
    }

    /// Hands out the text of the next component from the back.
    pub fn next_back(&mut self) -> (r: Option<&'a [u8]>)
        requires
            old(self).wf(),
        ensures
            final(self).wf(),
            old(self).remaining().len() == 0 ==> r is None && final(self).remaining().len() == 0,
            old(self).remaining().len() > 0 ==> r is Some && r->Some_0@ == component_text(
                old(self).remaining().last(),
            ) && final(self).remaining() == old(self).remaining().drop_last(),
            final(self).walk().source() == old(self).walk().source(),
            final(self).walk().lo() == old(self).walk().lo(),
            final(self).walk().front_rank() == old(self).walk().front_rank(),
            final(self).walk().root_mark() == old(self).walk().root_mark(),
            final(self).walk().cur_dir_mark() == old(self).walk().cur_dir_mark(),
            exists|c: Option<Component<'a>>| #[trigger]
                old(self).walk().back_step(
                    c,
                    final(self).walk().hi(),
                    final(self).walk().back_rank(),
                ),
    {
        match self.inner.next_back() {
            Some(c) => Some(c.as_os_str()),
            None => None,
        }
    }
}

/// What `String::from_utf8_lossy` makes of a byte string: its text, with
/// the replacement character in place of what is not UTF-8.
pub uninterp spec fn lossy_text(bytes: Seq<u8>) -> Seq<char>;

/// The text of `bytes`, with the replacement character where they are not
/// UTF-8.
///
/// This is `String::from_utf8_lossy`, whose result depends on the bytes
/// alone.
#[verifier::external_body]
fn lossy_string(bytes: &[u8]) -> (r: String)
    ensures
        r@ == lossy_text(bytes@),
{
    String::from_utf8_lossy(bytes).into_owned()
}

/// A path that is about to be shown as text.
#[derive(Clone, Copy, Debug)]
pub struct Display<'a> {
    path: Path<'a>,
}

impl<'a> View for Display<'a> {
    type V = Seq<u8>;

    closed spec fn view(&self) -> Seq<u8> {
        self.path@
    }
}

impl<'a> Display<'a> {
    /// The path as text; what is not UTF-8 in it shows as the replacement
    /// character.
    pub fn to_string_lossy(&self) -> (r: String)
        ensures
            r@ == lossy_text(self@),
    {
        self.path.to_string_lossy()
    }
}

/// An owned path that can grow and shrink.
#[derive(Clone, Debug)]
pub struct PathBuf {
    inner: Vec<u8>,
}

impl View for PathBuf {
    type V = Seq<u8>;

    closed spec fn view(&self) -> Seq<u8> {
        self.inner@
    }
}

impl PathBuf {
    /// The empty path.
    pub fn new() -> (r: PathBuf)
        ensures
            r@ == Seq::<u8>::empty(),
    {
        PathBuf { inner: Vec::new() }
    }

    /// The path with the bytes `bytes`.
    pub fn from_bytes(bytes: Vec<u8>) -> (r: PathBuf)
        ensures
            r@ == bytes@,
    {
        PathBuf { inner: bytes }
    }

    /// The path that `s` spells.
    pub fn from_str(s: &str) -> (r: PathBuf)
        ensures
            r@ == s.spec_bytes(),
    {
        PathBuf { inner: slice_to_vec(s.as_bytes()) }
    }

    /// The path, borrowed.
    pub fn as_path(&self) -> (r: Path<'_>)
        ensures
            r@ == self@,
    {
        Path { inner: self.inner.as_slice() }
    }

    /// Joins `path` onto `self`. A rooted `path` takes the place of `self`.
    pub fn push(&mut self, path: Path<'_>)
        ensures
            final(self)@ == joined(old(self)@, path@),
    {
        let n = self.inner.len();
        let need_sep = n > 0 && !is_sep_byte(self.inner[n - 1]);
        if path.is_absolute() {
            self.inner.truncate(0);
            assert(self.inner@ =~= Seq::<u8>::empty());
        } else if need_sep {
            self.inner.push(SEP);
        }
        append_bytes(&mut self.inner, path.inner);
        assert(self@ =~= joined(old(self)@, path@));
    }

    /// Cuts `self` down to its parent. Answers `false`, and changes
    /// nothing, where `self` has no parent.
    pub fn pop(&mut self) -> (r: bool)
        ensures
            r == parent_of(old(self)@) is Some,
            parent_of(old(self)@) matches Some(p) ==> final(self)@ == p,
            parent_of(old(self)@) is None ==> final(self)@ == old(self)@,
    {
        let len = match self.as_path().parent() {
            Some(p) => Some(p.inner.len()),
            None => None,
        };
        match len {
            Some(len) => {
                proof {
                    lemma_parent_end(self@);
                }
                self.inner.truncate(len);
                true
            },
            None => false,
        }
    }

    /// Replaces the file name of `self` by `file_name`, or joins
    /// `file_name` onto `self` where it has no file name.
    pub fn set_file_name(&mut self, file_name: &[u8])
        ensures
            final(self)@ == with_name(old(self)@, file_name@),
    {
        if self.as_path().file_name().is_some() {
            proof {
                lemma_parent_end(self@);
            }
            let _ = self.pop();
        }
        self.push(Path::from_bytes(file_name));
    }

    /// Replaces the extension of the file name by `extension`, or takes it
    /// away where `extension` is empty. Answers `false`, and changes
    /// nothing, where `self` has no file name.
    pub fn set_extension(&mut self, extension: &[u8]) -> (r: bool)
        ensures
            r == file_name_of(old(self)@) is Some,
            file_name_of(old(self)@) is None ==> final(self)@ == old(self)@,
            file_name_of(old(self)@) matches Some(n) ==> final(self)@ == with_name(
                old(self)@,
                renamed(n, extension@),
            ),
    {
        if self.as_path().file_name().is_none() {
            return false;
        }
        let mut stem: Vec<u8> = match self.as_path().file_stem() {
            Some(stem) => slice_to_vec(stem),
            None => Vec::new(),
        };
        if extension.len() > 0 {
            stem.push(DOT);
            append_bytes(&mut stem, extension);
        }
        assert(stem@ =~= renamed(file_name_of(self@)->Some_0, extension@));
        self.set_file_name(stem.as_slice());
        true
    }

    /// The bytes of the path.
    pub fn into_os_string(self) -> (r: Vec<u8>)
        ensures
            r@ == self@,
    {
        self.inner
    }
}

/// A path with a file name has a parent, and a parent is a part of the path
/// that starts where the path starts.
pub proof fn lemma_parent_end(b: Seq<u8>)
    ensures
        file_name_of(b) is Some ==> parent_of(b) is Some,
        parent_end(b) matches Some(n) ==> 0 <= n <= b.len(),
        parent_of(b) matches Some(p) ==> p.len() <= b.len() && p == b.subrange(0, p.len() as int),
{
    let start = body_start(b);
    lemma_trim_right_end(b, start, b.len() as int);
    let end = trim_right_end(b, start, b.len() as int);
    if end > start {
        lemma_last_start(b, start, end);
        lemma_trim_right_end(b, start, before_last(b, start, end));
    }
}

/// Whether `n` can be a component that is a name: it is not empty, holds
/// no separator, and is neither `.` nor `..`.
pub open spec fn is_name(n: Seq<u8>) -> bool {
    &&& single_component(n) == Some(ComponentView::Normal(n))
    &&& forall|i: int| 0 <= i < n.len() ==> n[i] != SEP
}

/// The components of a body are names and `..`.
pub proof fn lemma_body_names(b: Seq<u8>, lo: int, hi: int, k: int)
    requires
        0 <= lo <= hi <= b.len(),
        0 <= k < body_components(b, lo, hi).len(),
    ensures
        body_components(b, lo, hi)[k] is ParentDir || body_components(b, lo, hi)[k] is Normal,
        body_components(b, lo, hi)[k] matches ComponentView::Normal(n) ==> is_name(n),
    decreases hi - lo,
{
    if lo < hi {
        let i = first_sep(b, lo, hi);
        lemma_first_sep(b, lo, hi);
        let head = optional(single_component(b.subrange(lo, i)));
        if k < head.len() {
            assert(body_components(b, lo, hi)[k] == head[k]);
        } else {
            assert(i < hi);
            assert(body_components(b, lo, hi)[k] == body_components(b, i + 1, hi)[k - head.len()]);
            lemma_body_names(b, i + 1, hi, k - head.len());
        }
    }
}

/// A name, read as a path, has itself for its only component and for its
/// file name.
pub proof fn lemma_name_as_path(n: Seq<u8>)
    requires
        is_name(n),
    ensures
        path_components(n) == seq![ComponentView::Normal(n)],
        file_name_of(n) == Some(n),
{
    let len = n.len() as int;
    assert(!rooted(n));
    assert(!leads_with_cur_dir(n));
    lemma_body_without_sep(n, 0, len);
    assert(n.subrange(0, len) =~= n);
    assert(path_components(n) =~= seq![ComponentView::Normal(n)]);
    lemma_last_start_is(n, 0, len, 0);
}

/// A name behind the root, read as a path, has the root and the name for
/// its components, and the name for its file name.
pub proof fn lemma_rooted_name(n: Seq<u8>)
    requires
        is_name(n),
    ensures
        path_components(seq![SEP] + n) == seq![ComponentView::RootDir, ComponentView::Normal(n)],
        file_name_of(seq![SEP] + n) == Some(n),
{
    let b = seq![SEP] + n;
    let len = b.len() as int;
    assert(rooted(b));
    assert(b.subrange(1, len) =~= n);
    assert forall|k: int| 1 <= k < len implies b[k] != SEP by {
        assert(b[k] == n[k - 1]);
    }
    lemma_body_without_sep(b, 1, len);
    assert(path_components(b) =~= seq![ComponentView::RootDir, ComponentView::Normal(n)]);
    lemma_file_name_is_last(b);
}

/// A file name without a `.` is all stem and has no extension.
pub proof fn lemma_plain_name(n: Seq<u8>, hi: int)
    requires
        0 <= hi <= n.len(),
        forall|i: int| 0 <= i < n.len() ==> n[i] != DOT,
    ensures
        last_dot(n, hi) == -1,
        hi == n.len() ==> stem_of(n) == n && extension_of(n) is None,
    decreases hi,
{
    if hi > 0 {
        lemma_plain_name(n, hi - 1);
    }
}

/// A file name of a stem, a `.` and an extension without a `.` has that
/// stem and that extension, where the stem is not empty and the name is
/// not `..`.
pub proof fn lemma_dotted_name(stem: Seq<u8>, ext: Seq<u8>)
    requires
        stem.len() > 0,
        !(stem.len() == 1 && stem[0] == DOT && ext.len() == 0),
        forall|i: int| 0 <= i < ext.len() ==> ext[i] != DOT,
    ensures
        stem_of(stem + seq![DOT] + ext) == stem,
        extension_of(stem + seq![DOT] + ext) == Some(ext),
{
    let n = stem + seq![DOT] + ext;
    let at = stem.len() as int;
    lemma_dot_found(n, at, n.len() as int);
    assert(n.subrange(0, at) =~= stem);
    assert(n.subrange(at + 1, n.len() as int) =~= ext);
}

// Where `n` has a `.` at `at` and none behind it, that is its last `.`.
proof fn lemma_dot_found(n: Seq<u8>, at: int, hi: int)
    requires
        0 <= at < hi <= n.len(),
        n[at] == DOT,
        forall|i: int| at < i < n.len() ==> n[i] != DOT,
    ensures
        last_dot(n, hi) == at,
    decreases hi,
{
    if hi - 1 > at {
        lemma_dot_found(n, at, hi - 1);
    }
}

/// The file name of a path is its last component, where that is a name.
pub proof fn lemma_file_name_is_last(b: Seq<u8>)
    ensures
        file_name_of(b) == if path_components(b).len() > 0 {
            match path_components(b).last() {
                ComponentView::Normal(n) => Some(n),
                _ => None,
            }
        } else {
            None
        },
{
    let start = body_start(b);
    let len = b.len() as int;
    lemma_trim_right_end(b, start, len);
    let e = trim_right_end(b, start, len);
    if e > start {
        lemma_last_start(b, start, e);
        lemma_body_split_last(b, start, e);
        let last = single_component(b.subrange(last_start(b, start, e), e));
        assert(body_components(b, start, len).last() == last->Some_0);
        assert(path_components(b).last() == last->Some_0);
    } else {
        assert(body_components(b, start, e) =~= Seq::<ComponentView>::empty());
        assert(path_components(b) =~= start_components(b));
    }
}

/// Where a range ends once the meaningless components on its right are
/// dropped: where it ended, where it starts, or before a separator.
pub proof fn lemma_trim_right_at_sep(b: Seq<u8>, lo: int, hi: int)
    requires
        0 <= lo <= hi <= b.len(),
    ensures
        ({
            let r = trim_right_end(b, lo, hi);
            r == hi || r == lo || (lo < r < hi && b[r] == SEP)
        }),
    decreases hi - lo,
{
    if hi > lo {
        lemma_last_start(b, lo, hi);
        let s = last_start(b, lo, hi);
        if single_component(b.subrange(s, hi)) is None {
            lemma_trim_right_at_sep(b, lo, before_last(b, lo, hi));
        }
    }
}

/// The first separator of a range is found in every sequence that holds
/// the bytes of the range.
pub proof fn lemma_first_sep_prefix(b: Seq<u8>, n: int, lo: int, hi: int)
    requires
        0 <= lo <= hi <= n <= b.len(),
    ensures
        first_sep(b.subrange(0, n), lo, hi) == first_sep(b, lo, hi),
    decreases hi - lo,
{
    if lo < hi {
        assert(b.subrange(0, n)[lo] == b[lo]);
        if b[lo] != SEP {
            lemma_first_sep_prefix(b, n, lo + 1, hi);
        }
    }
}

/// The components of a range are the same in every sequence that holds the
/// bytes of the range.
pub proof fn lemma_body_prefix(b: Seq<u8>, n: int, lo: int, hi: int)
    requires
        0 <= lo <= hi <= n <= b.len(),
    ensures
        body_components(b.subrange(0, n), lo, hi) == body_components(b, lo, hi),
    decreases hi - lo,
{
    if lo < hi {
        lemma_first_sep_prefix(b, n, lo, hi);
        lemma_first_sep(b, lo, hi);
        let i = first_sep(b, lo, hi);
        assert(b.subrange(0, n).subrange(lo, i) =~= b.subrange(lo, i));
        if i < hi {
            lemma_body_prefix(b, n, i + 1, hi);
        }
    }
}

/// The parent of a path has the components of the path but the last. A
/// path has no parent where it has no component, or the root alone.
pub proof fn lemma_parent_components(b: Seq<u8>)
    ensures
        parent_of(b) matches Some(p) ==> path_components(p) == path_components(b).drop_last()
            && path_components(b).len() > 0,
        parent_of(b) is None ==> path_components(b).len() == 0 || path_components(b)
            == seq![ComponentView::RootDir],
{
    let start = body_start(b);
    let len = b.len() as int;
    lemma_trim_right_end(b, start, len);
    let e = trim_right_end(b, start, len);
    if e > start {
        lemma_last_start(b, start, e);
        lemma_body_split_last(b, start, e);
        let n2 = before_last(b, start, e);
        lemma_trim_right_end(b, start, n2);
        lemma_trim_right_at_sep(b, start, n2);
        let n3 = trim_right_end(b, start, n2);
        let p = b.subrange(0, n3);
        assert(n2 == start || b[n2] == SEP);
        assert(n3 == start || b[n3] == SEP);
        assert(rooted(p) == rooted(b));
        assert(leads_with_cur_dir(p) == leads_with_cur_dir(b));
        lemma_body_prefix(b, n3, start, n3);
        let last = single_component(b.subrange(last_start(b, start, e), e));
        assert(path_components(b) =~= (start_components(b) + body_components(b, start, n2)).push(
            last->Some_0,
        ));
        assert(path_components(p) =~= path_components(b).drop_last());
    } else {
        assert(body_components(b, start, e) =~= Seq::<ComponentView>::empty());
        assert(path_components(b) =~= start_components(b));
        if leads_with_cur_dir(b) {
            assert(b.subrange(0, 0).len() == 0);
            assert(path_components(b.subrange(0, 0)) =~= Seq::<ComponentView>::empty());
            assert(path_components(b).drop_last() =~= Seq::<ComponentView>::empty());
        }
    }
}

impl<'a> PartialEq for Path<'a> {
    /// Two paths are equal where they have the same components.
    fn eq(&self, other: &Path<'a>) -> (r: bool) {
        let a = self.components();
        let b = other.components();
        let ghost ca = a.remaining();
        let ghost cb = b.remaining();
        let r = iter_after(a, b).is_some() && iter_after(b, a).is_some();
        proof {
            if r {
                assert(ca =~= cb);
            }
            if ca == cb {
                assert(cb.subrange(0, ca.len() as int) =~= ca);
            }
        }
        r
    }
}

impl<'a> Eq for Path<'a> {

}

impl<'a> PartialEqSpecImpl for Path<'a> {
    open spec fn obeys_eq_spec() -> bool {
        true
    }

    open spec fn eq_spec(&self, other: &Path<'a>) -> bool {
        path_components(self@) == path_components(other@)
    }
}

impl PartialEq for PathBuf {
    /// Two paths are equal where they have the same components.
    fn eq(&self, other: &PathBuf) -> (r: bool) {
        let a = self.as_path().components();
        let b = other.as_path().components();
        let ghost ca = a.remaining();
        let ghost cb = b.remaining();
        let r = iter_after(a, b).is_some() && iter_after(b, a).is_some();
        proof {
            if r {
                assert(ca =~= cb);
            }
            if ca == cb {
                assert(cb.subrange(0, ca.len() as int) =~= ca);
            }
        }
        r
    }
}

impl Eq for PathBuf {

}

impl PartialEqSpecImpl for PathBuf {
    open spec fn obeys_eq_spec() -> bool {
        true
    }

    open spec fn eq_spec(&self, other: &PathBuf) -> bool {
        path_components(self@) == path_components(other@)
    }
}

} // verus!
