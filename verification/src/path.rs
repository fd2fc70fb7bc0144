//! Byte-string paths and their components.
//!
//! A path is parsed into components without any UTF-8 requirement:
//! repeated `/` are ignored, a `.` counts only at the very start, `..` is a
//! parent-directory component and a leading `/` is the root.

use vstd::prelude::*;

verus! {

pub const SLASH: u8 = 0x2F;

pub const DOT: u8 = 0x2E;

/// The abstract value of a path component.
pub enum ComponentView {
    RootDir,
    CurDir,
    ParentDir,
    Normal(Seq<u8>),
}

/// One component of a path.
#[derive(Debug, Clone, Copy, PartialEq, Eq)]
pub enum Component<'a> {
    RootDir,
    CurDir,
    ParentDir,
    Normal(&'a [u8]),
}

impl<'a> View for Component<'a> {
    type V = ComponentView;

    open spec fn view(&self) -> ComponentView {
        match self {
            Component::RootDir => ComponentView::RootDir,
            Component::CurDir => ComponentView::CurDir,
            Component::ParentDir => ComponentView::ParentDir,
            Component::Normal(s) => ComponentView::Normal(s@),
        }
    }
}

/// The abstract value of an optional component.
pub open spec fn opt_view(c: Option<Component>) -> Option<ComponentView> {
    match c {
        Some(c) => Some(c@),
        None => None,
    }
}

/// The bytes a component stands for.
pub open spec fn component_bytes(c: ComponentView) -> Seq<u8> {
    match c {
        ComponentView::RootDir => seq![SLASH],
        ComponentView::CurDir => seq![DOT],
        ComponentView::ParentDir => seq![DOT, DOT],
        ComponentView::Normal(s) => s,
    }
}

/// End (exclusive) of the segment that starts at `i`: the first `/` at or
/// after `i`, or `back`.
pub open spec fn seg_end(buf: Seq<u8>, i: int, back: int) -> int
    decreases back - i,
{
    if i >= back || buf[i] == SLASH {
        i
    } else {
        seg_end(buf, i + 1, back)
    }
}

/// Start of the segment that ends at `i`: just after the last `/` before
/// `i`, or `lo`.
pub open spec fn seg_start(buf: Seq<u8>, i: int, lo: int) -> int
    decreases i - lo,
{
    if i <= lo || buf[i - 1] == SLASH {
        i
    } else {
        seg_start(buf, i - 1, lo)
    }
}

/// `i` moved back over every `/` that ends `buf[lo..i]`.
pub open spec fn trim_slashes_back(buf: Seq<u8>, i: int, lo: int) -> int
    decreases i - lo,
{
    if i <= lo || buf[i - 1] != SLASH {
        i
    } else {
        trim_slashes_back(buf, i - 1, lo)
    }
}

/// What a segment found at byte offset `start` is read as; `None` means that
/// the segment is skipped (an empty or `.` segment not at the start).
pub open spec fn classify(seg: Seq<u8>, start: int) -> Option<ComponentView> {
    if seg.len() == 0 {
        if start == 0 {
            Some(ComponentView::RootDir)
        } else {
            None
        }
    } else if seg =~= seq![DOT] {
        if start == 0 {
            Some(ComponentView::CurDir)
        } else {
            None
        }
    } else if seg =~= seq![DOT, DOT] {
        Some(ComponentView::ParentDir)
    } else {
        Some(ComponentView::Normal(seg))
    }
}

pub proof fn lemma_seg_end_bounds(buf: Seq<u8>, i: int, back: int)
    requires
        i <= back,
    ensures
        i <= seg_end(buf, i, back) <= back,
        seg_end(buf, i, back) == i && i < back ==> buf[i] == SLASH,
        seg_end(buf, i, back) < back ==> buf[seg_end(buf, i, back)] == SLASH,
        forall|k: int| i <= k < seg_end(buf, i, back) ==> buf[k] != SLASH,
    decreases back - i,
{
    if i < back && buf[i] != SLASH {
        lemma_seg_end_bounds(buf, i + 1, back);
    }
}

pub proof fn lemma_seg_start_bounds(buf: Seq<u8>, i: int, lo: int)
    requires
        lo <= i,
    ensures
        lo <= seg_start(buf, i, lo) <= i,
        seg_start(buf, i, lo) > lo ==> buf[seg_start(buf, i, lo) - 1] == SLASH,
        forall|k: int| seg_start(buf, i, lo) <= k < i ==> buf[k] != SLASH,
    decreases i - lo,
{
    if i > lo && buf[i - 1] != SLASH {
        lemma_seg_start_bounds(buf, i - 1, lo);
    }
}

pub proof fn lemma_trim_bounds(buf: Seq<u8>, i: int, lo: int)
    requires
        lo <= i,
    ensures
        lo <= trim_slashes_back(buf, i, lo) <= i,
        trim_slashes_back(buf, i, lo) > lo ==> buf[trim_slashes_back(buf, i, lo) - 1] != SLASH,
        forall|k: int| trim_slashes_back(buf, i, lo) <= k < i ==> buf[k] == SLASH,
    decreases i - lo,
{
    if i > lo && buf[i - 1] == SLASH {
        lemma_trim_bounds(buf, i - 1, lo);
    }
}

/// Front offset after the segment that starts at `front`.
pub open spec fn after_seg(buf: Seq<u8>, front: int, back: int) -> int {
    let end = seg_end(buf, front, back);
    if end < back && buf[end] == SLASH {
        end + 1
    } else {
        end
    }
}

/// The component `next` yields from `buf[front..back]`, and the new front.
pub open spec fn next_state(buf: Seq<u8>, front: int, back: int) -> (Option<ComponentView>, int)
    decreases back - front,
{
    if front < 0 || front >= back {
        (None, front)
    } else {
        let end = seg_end(buf, front, back);
        let nf = after_seg(buf, front, back);
        proof {
            lemma_seg_end_bounds(buf, front, back);
        }
        match classify(buf.subrange(front, end), front) {
            Some(c) => (Some(c), nf),
            None => next_state(buf, nf, back),
        }
    }
}

/// The component `next_back` yields from `buf[front..back]`, and the new back.
pub open spec fn next_back_state(buf: Seq<u8>, front: int, back: int) -> (
    Option<ComponentView>,
    int,
)
    decreases back - front,
{
    if front < 0 || front >= back {
        (None, back)
    } else {
        let end = trim_slashes_back(buf, back, front);
        let start = seg_start(buf, end, front);
        proof {
            lemma_trim_bounds(buf, back, front);
            lemma_seg_start_bounds(buf, end, front);
        }
        match classify(buf.subrange(start, end), start) {
            Some(c) => (Some(c), start),
            None => next_back_state(buf, front, start),
        }
    }
}

/// All components read front to back from `buf[front..back]`.
pub open spec fn components_from(buf: Seq<u8>, front: int, back: int) -> Seq<ComponentView>
    decreases back - front,
{
    let (c, nf) = next_state(buf, front, back);
    match c {
        None => Seq::empty(),
        Some(c) => {
            if front < nf <= back {
                seq![c] + components_from(buf, nf, back)
            } else {
                seq![c]
            }
        },
    }
}

/// All components of a whole path, front to back.
pub open spec fn path_components(buf: Seq<u8>) -> Seq<ComponentView> {
    components_from(buf, 0, buf.len() as int)
}

/// Last index of `buf[..=e]` that is not a trailing `/` (it stops at 0).
pub open spec fn strip_end(buf: Seq<u8>, e: int) -> int
    decreases e,
{
    if e <= 0 || buf[e] != SLASH {
        e
    } else {
        strip_end(buf, e - 1)
    }
}

/// The bytes `as_path` gives back for `buf[front..back]`.
pub open spec fn as_path_bytes(buf: Seq<u8>, front: int, back: int) -> Seq<u8> {
    if back == 0 {
        Seq::empty()
    } else {
        buf.subrange(front, strip_end(buf, back - 1) + 1)
    }
}

/// Whether `as_path` can slice `buf[front..back]` (its start lies before
/// the stripped end).
pub open spec fn as_path_ok(buf: Seq<u8>, front: int, back: int) -> bool {
    back == 0 || front <= strip_end(buf, back - 1) + 1
}

proof fn lemma_strip_end_bounds(buf: Seq<u8>, e: int)
    requires
        0 <= e,
    ensures
        0 <= strip_end(buf, e) <= e,
    decreases e,
{
    if e > 0 && buf[e] == SLASH {
        lemma_strip_end_bounds(buf, e - 1);
    }
}

proof fn lemma_next_state_progress(buf: Seq<u8>, front: int, back: int)
    requires
        0 <= front <= back,
    ensures
        next_state(buf, front, back).0 is Some ==> front < next_state(buf, front, back).1 <= back,
        next_state(buf, front, back).0 is None ==> next_state(buf, front, back).1 == back,
    decreases back - front,
{
    if front < back {
        lemma_seg_end_bounds(buf, front, back);
        let nf = after_seg(buf, front, back);
        lemma_next_state_progress(buf, nf, back);
    }
}

proof fn lemma_next_back_state_progress(buf: Seq<u8>, front: int, back: int)
    requires
        0 <= front <= back,
    ensures
        next_back_state(buf, front, back).0 is Some ==> front <= next_back_state(buf, front, back).1 < back,
        next_back_state(buf, front, back).0 is None ==> next_back_state(buf, front, back).1 == front,
    decreases back - front,
{
    if front < back {
        lemma_trim_bounds(buf, back, front);
        let end = trim_slashes_back(buf, back, front);
        lemma_seg_start_bounds(buf, end, front);
        let start = seg_start(buf, end, front);
        lemma_next_back_state_progress(buf, front, start);
    }
}

/// A path: a view of bytes, with no UTF-8 requirement.
#[derive(Clone, Copy)]
pub struct Path<'a> {
    inner: &'a [u8],
}

impl<'a> View for Path<'a> {
    type V = Seq<u8>;

    closed spec fn view(&self) -> Seq<u8> {
        self.inner@
    }
}

/// Whether `s` ends with `suffix`.
pub open spec fn ends_with(s: Seq<u8>, suffix: Seq<u8>) -> bool {
    s.len() >= suffix.len() && s.subrange(s.len() - suffix.len(), s.len() as int) =~= suffix
}

/// A path names a directory when it ends with `/`, `/.` or `/..`, or is `.`
/// or `..`.
pub open spec fn spec_is_dir(s: Seq<u8>) -> bool {
    ||| ends_with(s, seq![SLASH])
    ||| ends_with(s, seq![SLASH, DOT])
    ||| s =~= seq![DOT]
    ||| ends_with(s, seq![SLASH, DOT, DOT])
    ||| s =~= seq![DOT, DOT]
}

/// The bytes after the last `/` of `s` (all of `s` when it has none).
pub open spec fn last_segment(s: Seq<u8>) -> Seq<u8> {
    s.subrange(seg_start(s, s.len() as int, 0), s.len() as int)
}

/// A path names a directory exactly when it ends with `/`, or its last
/// segment (what follows its last `/`) is `.` or `..`: so `.`, `..`,
/// `a/.`, `a/..` and `a/` are directories, `a`, `a/b` and `.a` are not.
pub proof fn lemma_is_dir_by_last_segment(s: Seq<u8>)
    ensures
        spec_is_dir(s) <==> (s.len() > 0 && s[s.len() - 1] == SLASH) || last_segment(s) =~= seq![DOT]
            || last_segment(s) =~= seq![DOT, DOT],
{
    let n = s.len() as int;
    lemma_seg_start_bounds(s, n, 0);
    let st = seg_start(s, n, 0);
    let seg = last_segment(s);
    assert(seg.len() == n - st);
    if n > 0 && s[n - 1] == SLASH {
        assert(s.subrange(n - 1, n) =~= seq![SLASH]);
    } else {
        if spec_is_dir(s) {
            if ends_with(s, seq![SLASH]) {
                assert(s.subrange(n - 1, n)[0] == s[n - 1]);
            } else if ends_with(s, seq![SLASH, DOT]) {
                assert(s.subrange(n - 2, n)[0] == s[n - 2]);
                assert(s.subrange(n - 2, n)[1] == s[n - 1]);
                assert(st == n - 1) by {
                    if st < n - 1 {
                        assert(s[n - 2] != SLASH);
                    }
                }
                assert(seg =~= seq![DOT]);
            } else if s =~= seq![DOT] {
                assert(st == 0);
                assert(seg =~= s);
            } else if ends_with(s, seq![SLASH, DOT, DOT]) {
                assert(s.subrange(n - 3, n)[0] == s[n - 3]);
                assert(s.subrange(n - 3, n)[1] == s[n - 2]);
                assert(s.subrange(n - 3, n)[2] == s[n - 1]);
                assert(st == n - 2) by {
                    if st < n - 2 {
                        assert(s[n - 3] != SLASH);
                    }
                }
                assert(seg =~= seq![DOT, DOT]);
            } else {
                assert(s =~= seq![DOT, DOT]);
                assert(st == 0);
                assert(seg =~= s);
            }
        }
        if seg =~= seq![DOT] {
            assert(seg[0] == s[st]);
            if st == 0 {
                assert(s =~= seq![DOT]);
            } else {
                assert(s[st - 1] == SLASH);
                assert(s.subrange(n - 2, n) =~= seq![SLASH, DOT]);
            }
        }
        if seg =~= seq![DOT, DOT] {
            assert(seg[0] == s[st]);
            assert(seg[1] == s[st + 1]);
            if st == 0 {
                assert(s =~= seq![DOT, DOT]);
            } else {
                assert(s[st - 1] == SLASH);
                assert(s.subrange(n - 3, n) =~= seq![SLASH, DOT, DOT]);
            }
        }
    }
}

/// A path whose last component, read from the back, is `.` or `..` names
/// a directory, and so does every path ending with `/`.
pub proof fn lemma_is_dir_by_last_component(s: Seq<u8>)
    ensures
        next_back_state(s, 0, s.len() as int).0 == Some(ComponentView::CurDir) ==> spec_is_dir(s),
        next_back_state(s, 0, s.len() as int).0 == Some(ComponentView::ParentDir) ==> spec_is_dir(s),
        s.len() > 0 && s[s.len() - 1] == SLASH ==> spec_is_dir(s),
{
    let n = s.len() as int;
    lemma_is_dir_by_last_segment(s);
    if n > 0 && s[n - 1] != SLASH {
        lemma_trim_bounds(s, n, 0);
        let end = trim_slashes_back(s, n, 0);
        assert(end == n);
        lemma_seg_start_bounds(s, end, 0);
        let st = seg_start(s, end, 0);
        let seg = s.subrange(st, end);
        assert(seg =~= last_segment(s));
        match classify(seg, st) {
            Some(c) => {},
            None => {
                // skipped at the back: an empty segment after a `/`, or a
                // `.` after a `/`
                if seg.len() == 0 {
                    assert(st == n);
                    assert(s[st - 1] == SLASH);
                } else {
                    assert(seg =~= seq![DOT]);
                }
            },
        }
    }
}

/// A path is absolute when its first byte is `/`.
pub open spec fn spec_is_absolute(s: Seq<u8>) -> bool {
    s.len() > 0 && s[0] == SLASH
}

fn bytes_end_with(s: &[u8], suffix: &[u8]) -> (r: bool)
    ensures
        r == ends_with(s@, suffix@),
{
    if s.len() < suffix.len() {
        return false;
    }
    let slen = s.len();
    let off = slen - suffix.len();
    let mut i: usize = 0;
    while i < suffix.len()
        invariant
            slen == s@.len(),
            off + suffix@.len() == s@.len(),
            0 <= i <= suffix@.len(),
            forall|k: int| 0 <= k < i ==> s@[off + k] == suffix@[k],
        decreases suffix@.len() - i,
    {
        if s[off + i] != suffix[i] {
            proof {
                assert(s@.subrange(off as int, s@.len() as int)[i as int] != suffix@[i as int]);
            }
            return false;
        }
        i += 1;
    }
    proof {
        assert(s@.subrange(off as int, s@.len() as int) =~= suffix@);
    }
    true
}

impl<'a> Path<'a> {
    /// Makes a path out of bytes.
    pub fn new(path: &'a [u8]) -> (r: Path<'a>)
        ensures
            r@ == path@,
    {
        Path { inner: path }
    }

    /// The parent directory: the path without its last component, when that
    /// component is a name or `..`.
    pub fn parent(&self) -> (r: Option<Path<'a>>)
        ensures
            match next_back_state(self@, 0, self@.len() as int).0 {
                Some(ComponentView::Normal(_)) | Some(ComponentView::ParentDir) => {
                    &&& r is Some
                    &&& r->0@ == as_path_bytes(
                        self@,
                        0,
                        next_back_state(self@, 0, self@.len() as int).1,
                    )
                },
                _ => r is None,
            },
    {
        let mut components = self.components();
        match components.next_back() {
            Some(Component::Normal(_)) | Some(Component::ParentDir) => {
                proof {
                    if components.back > 0 {
                        lemma_strip_end_bounds(self@, components.back - 1);
                    }
                }
                Some(components.as_path())
            },
            _ => None,
        }
    }

    /// The last component, when it is a name.
    pub fn name(&self) -> (r: Option<&'a [u8]>)
        ensures
            match next_back_state(self@, 0, self@.len() as int).0 {
                Some(ComponentView::Normal(n)) => r is Some && r->0@ == n,
                _ => r is None,
            },
    {
        let mut components = self.components();
        match components.next_back() {
            Some(Component::Normal(name)) => Some(name),
            _ => None,
        }
    }

    /// The bytes of every component, front to back.
    pub fn iter(&self) -> (r: Vec<&'a [u8]>)
        ensures
            r@.len() == path_components(self@).len(),
            forall|i: int|
                0 <= i < r@.len() ==> (#[trigger] r@[i])@ == component_bytes(path_components(self@)[i]),
    {
        let mut components = self.components();
        let mut out: Vec<&'a [u8]> = Vec::new();
        let ghost mut done: Seq<ComponentView> = Seq::empty();
        loop
            invariant
                components.buf@ == self@,
                0 <= components.front <= components.back,
                components.back == self@.len(),
                done + components_from(self@, components.front as int, components.back as int)
                    =~= path_components(self@),
                out@.len() == done.len(),
                forall|i: int| 0 <= i < out@.len() ==> (#[trigger] out@[i])@ == component_bytes(done[i]),
            ensures
                done =~= path_components(self@),
                out@.len() == done.len(),
                forall|i: int| 0 <= i < out@.len() ==> (#[trigger] out@[i])@ == component_bytes(done[i]),
            decreases components.back - components.front,
        {
            let ghost f = components.front as int;
            proof {
                lemma_next_state_progress(self@, f, self@.len() as int);
            }
            match components.next() {
                Some(c) => {
                    let b = c.as_bytes();
                    out.push(b);
                    proof {
                        let rest = components_from(self@, components.front as int, components.back as int);
                        assert(components_from(self@, f, self@.len() as int) =~= seq![c@] + rest);
                        done = done.push(c@);
                    }
                },
                None => {
                    proof {
                        assert(components_from(self@, f, self@.len() as int) =~= Seq::<ComponentView>::empty());
                    }
                    break;
                },
            }
        }
        out
    }

    /// The components of the path.
    pub fn components(&self) -> (r: Components<'a>)
        ensures
            r.buf@ == self@,
            r.front == 0,
            r.back == self@.len(),
    {
        Components::new(self.inner)
    }

    /// Whether the path starts with `/`.
    pub fn is_absolute(&self) -> (r: bool)
        ensures
            r == spec_is_absolute(self@),
    {
        self.inner.len() > 0 && self.inner[0] == SLASH
    }

    /// Whether the path does not start with `/`.
    pub fn is_relative(&self) -> (r: bool)
        ensures
            r == !spec_is_absolute(self@),
    {
        !self.is_absolute()
    }

    /// Whether the path names something that is not a directory.
    pub fn is_file(&self) -> (r: bool)
        ensures
            r == !spec_is_dir(self@),
    {
        !self.is_dir()
    }

    /// Whether the path names a directory by its form: it ends with `/`,
    /// `/.` or `/..`, or it is `.` or `..`.
    pub fn is_dir(&self) -> (r: bool)
        ensures
            r == spec_is_dir(self@),
    {
        let s = self.inner;
        let r = bytes_end_with(s, &[SLASH]) || bytes_end_with(s, &[SLASH, DOT]) || (s.len() == 1
            && s[0] == DOT) || bytes_end_with(s, &[SLASH, DOT, DOT]) || (s.len() == 2 && s[0]
            == DOT && s[1] == DOT);
        proof {
            if s@.len() == 1 && s@[0] == DOT {
                assert(s@ =~= seq![DOT]);
            }
            if s@.len() == 2 && s@[0] == DOT && s@[1] == DOT {
                assert(s@ =~= seq![DOT, DOT]);
            }
        }
        r
    }

    /// Whether the path is the root (`/`, `//`, ...): its last component is
    /// the root.
    pub fn is_root(&self) -> (r: bool)
        ensures
            r == (next_back_state(self@, 0, self@.len() as int).0 == Some(ComponentView::RootDir)),
    {
        let mut components = self.components();
        match components.next_back() {
            Some(Component::RootDir) => true,
            _ => false,
        }
    }

    /// The bytes of the path.
    pub fn as_bytes(&self) -> (r: &'a [u8])
        ensures
            r@ == self@,
    {
        self.inner
    }
}

impl<'a> Component<'a> {
    /// The bytes the component stands for.
    pub fn as_bytes(self) -> (r: &'a [u8])
        ensures
            r@ == component_bytes(self@),
    {
        match self {
            Component::RootDir => {
                let r: &'a [u8] = &[SLASH];
                r
            },
            Component::CurDir => {
                let r: &'a [u8] = &[DOT];
                r
            },
            Component::ParentDir => {
                let r: &'a [u8] = &[DOT, DOT];
                r
            },
            Component::Normal(comp) => comp,
        }
    }
}

/// A double-ended walk over the components of `buf[front..back]`.
pub struct Components<'a> {
    pub buf: &'a [u8],
    pub front: usize,
    pub back: usize,
}

impl<'a> Components<'a> {
    /// Starts a walk over all of `path`.
    pub fn new(path: &'a [u8]) -> (r: Self)
        ensures
            r.buf@ == path@,
            r.front == 0,
            r.back == path@.len(),
    {
        Components { buf: path, front: 0, back: path.len() }
    }

    /// What is left of the walk, as a path with its trailing `/` removed
    /// (only the first byte is kept of an all-`/` rest).
    pub fn as_path(&self) -> (r: Path<'a>)
        requires
            self.front <= self.back <= self.buf@.len(),
            as_path_ok(self.buf@, self.front as int, self.back as int),
        ensures
            r@ == as_path_bytes(self.buf@, self.front as int, self.back as int),
    {
        if self.back == 0 {
            let e: &'a [u8] = &[];
            return Path::new(e);
        }
        let mut e = self.back - 1;
        while e != 0 && self.buf[e] == SLASH
            invariant
                e < self.buf@.len(),
                strip_end(self.buf@, e as int) == strip_end(self.buf@, self.back - 1),
            decreases e,
        {
            e -= 1;
        }
        Path::new(&self.buf[self.front..e + 1])
    }

    /// The next component from the front.
    pub fn next(&mut self) -> (r: Option<Component<'a>>)
        requires
            old(self).front <= old(self).back <= old(self).buf@.len(),
        ensures
            final(self).buf == old(self).buf,
            final(self).back == old(self).back,
            final(self).front <= final(self).back,
            opt_view(r) == next_state(
                old(self).buf@,
                old(self).front as int,
                old(self).back as int,
            ).0,
            final(self).front == next_state(
                old(self).buf@,
                old(self).front as int,
                old(self).back as int,
            ).1,
        decreases old(self).back - old(self).front,
    {
        if self.front == self.back {
            return None;
        }
        let start = self.front;
        let mut end = self.front;
        while end < self.back && self.buf[end] != SLASH
            invariant
                start <= end <= self.back <= self.buf@.len(),
                seg_end(self.buf@, end as int, self.back as int) == seg_end(
                    self.buf@,
                    start as int,
                    self.back as int,
                ),
            decreases self.back - end,
        {
            end += 1;
        }
        proof {
            lemma_seg_end_bounds(self.buf@, start as int, self.back as int);
        }
        self.front = end;
        if self.front < self.back && self.buf[self.front] == SLASH {
            self.front += 1;
        }
        let seg = &self.buf[start..end];
        proof {
            assert(seg@ =~= self.buf@.subrange(start as int, end as int));
        }
        if seg.len() == 0 {
            if start == 0 {
                Some(Component::RootDir)
            } else {
                self.next()
            }
        } else if seg.len() == 1 && seg[0] == DOT {
            proof {
                assert(seg@ =~= seq![DOT]);
            }
            if start == 0 {
                Some(Component::CurDir)
            } else {
                self.next()
            }
        } else if seg.len() == 2 && seg[0] == DOT && seg[1] == DOT {
            proof {
                assert(seg@ =~= seq![DOT, DOT]);
            }
            Some(Component::ParentDir)
        } else {
            proof {
                assert(!(seg@ =~= seq![DOT]));
                assert(!(seg@ =~= seq![DOT, DOT]));
            }
            Some(Component::Normal(seg))
        }
    }

    /// The next component from the back.
    pub fn next_back(&mut self) -> (r: Option<Component<'a>>)
        requires
            old(self).front <= old(self).back <= old(self).buf@.len(),
        ensures
            final(self).buf == old(self).buf,
            final(self).front == old(self).front,
            final(self).front <= final(self).back,
            final(self).back <= old(self).back,
            opt_view(r) == next_back_state(
                old(self).buf@,
                old(self).front as int,
                old(self).back as int,
            ).0,
            final(self).back == next_back_state(
                old(self).buf@,
                old(self).front as int,
                old(self).back as int,
            ).1,
        decreases old(self).back - old(self).front,
    {
        if self.front == self.back {
            return None;
        }
        let mut end = self.back;
        while end > self.front && self.buf[end - 1] == SLASH
            invariant
                self.front <= end <= self.back <= self.buf@.len(),
                trim_slashes_back(self.buf@, end as int, self.front as int) == trim_slashes_back(
                    self.buf@,
                    self.back as int,
                    self.front as int,
                ),
            decreases end,
        {
            end -= 1;
        }
        self.back = end;
        let mut start = self.back;
        while start > self.front && self.buf[start - 1] != SLASH
            invariant
                self.front <= start <= end <= self.buf@.len(),
                seg_start(self.buf@, start as int, self.front as int) == seg_start(
                    self.buf@,
                    end as int,
                    self.front as int,
                ),
            decreases start,
        {
            start -= 1;
        }
        let seg = &self.buf[start..end];
        self.back = start;
        proof {
            assert(seg@ =~= self.buf@.subrange(start as int, end as int));
        }
        if seg.len() == 0 {
            if start == 0 {
                Some(Component::RootDir)
            } else {
                self.next_back()
            }
        } else if seg.len() == 1 && seg[0] == DOT {
            proof {
                assert(seg@ =~= seq![DOT]);
            }
            if start == 0 {
                Some(Component::CurDir)
            } else {
                self.next_back()
            }
        } else if seg.len() == 2 && seg[0] == DOT && seg[1] == DOT {
            proof {
                assert(seg@ =~= seq![DOT, DOT]);
            }
            Some(Component::ParentDir)
        } else {
            proof {
                assert(!(seg@ =~= seq![DOT]));
                assert(!(seg@ =~= seq![DOT, DOT]));
            }
            Some(Component::Normal(seg))
        }
    }
}

proof fn lemma_seg_end_slash(p: Seq<u8>, f: int)
    requires
        0 <= f <= p.len(),
    ensures
        seg_end(p.push(SLASH), f, p.len() as int + 1) == seg_end(p, f, p.len() as int),
    decreases p.len() - f,
{
    let q = p.push(SLASH);
    if f < p.len() {
        assert(q[f] == p[f]);
        if p[f] != SLASH {
            lemma_seg_end_slash(p, f + 1);
        }
    } else {
        assert(q[f] == SLASH);
    }
}

proof fn lemma_next_state_slash(p: Seq<u8>, f: int)
    requires
        0 <= f <= p.len(),
        p.len() > 0,
    ensures
        next_state(p.push(SLASH), f, p.len() as int + 1).0 == next_state(p, f, p.len() as int).0,
        next_state(p.push(SLASH), f, p.len() as int + 1).1 == next_state(p, f, p.len() as int).1 || (
        next_state(p, f, p.len() as int).1 == p.len() && next_state(p.push(SLASH), f, p.len() as int + 1).1
            == p.len() as int + 1),
    decreases p.len() - f,
{
    let q = p.push(SLASH);
    let n = p.len() as int;
    lemma_seg_end_bounds(p, f, n);
    lemma_seg_end_bounds(q, f, n + 1);
    lemma_seg_end_slash(p, f);
    if f < n {
        let end = seg_end(p, f, n);
        assert(q.subrange(f, end) =~= p.subrange(f, end));
        if end < n {
            assert(q[end] == p[end]);
        }
        let nf = after_seg(p, f, n);
        if classify(p.subrange(f, end), f) is None {
            if nf < n {
                lemma_next_state_slash(p, nf);
            } else {
                assert(nf == n);
                lemma_next_state_slash(p, n);
            }
        }
    } else {
        assert(f == n);
        assert(seg_end(q, n, n + 1) == n);
        assert(q.subrange(n, n) =~= Seq::<u8>::empty());
        assert(classify(q.subrange(n, n), n) is None);
        assert(after_seg(q, n, n + 1) == n + 1);
        assert(next_state(q, n + 1, n + 1).0 is None);
    }
}

proof fn lemma_components_slash(p: Seq<u8>, f: int)
    requires
        0 <= f <= p.len(),
        p.len() > 0,
    ensures
        components_from(p.push(SLASH), f, p.len() as int + 1) == components_from(p, f, p.len() as int),
    decreases p.len() - f,
{
    let q = p.push(SLASH);
    let n = p.len() as int;
    lemma_next_state_slash(p, f);
    lemma_next_state_progress(p, f, n);
    lemma_next_state_progress(q, f, n + 1);
    let (c, nf) = next_state(p, f, n);
    let (c2, nf2) = next_state(q, f, n + 1);
    if c is Some {
        if nf2 == nf {
            if nf < n {
                lemma_components_slash(p, nf);
            } else {
                assert(nf == n);
                lemma_components_slash(p, n);
            }
        } else {
            assert(nf == n && nf2 == n + 1);
            assert(next_state(q, n + 1, n + 1).0 is None);
            assert(components_from(q, n + 1, n + 1) =~= Seq::<ComponentView>::empty());
            assert(next_state(p, n, n).0 is None);
            assert(components_from(p, n, n) =~= Seq::<ComponentView>::empty());
        }
    }
}

/// A trailing `/` changes nothing of the components of a non-empty path:
/// `a/b/` has those of `a/b` (only the path `/` itself differs from the
/// empty path).
pub proof fn lemma_trailing_slash_ignored(p: Seq<u8>)
    requires
        p.len() > 0,
    ensures
        path_components(p.push(SLASH)) == path_components(p),
{
    lemma_components_slash(p, 0);
}


/// Each byte of `p[f..b]` is a `/` or a `.` that stands alone between
/// slashes (or before the end `b`).
pub open spec fn dots_only(p: Seq<u8>, f: int, b: int) -> bool {
    forall|k: int|
        f <= k < b ==> #[trigger] p[k] == SLASH || (p[k] == DOT && p[k - 1] == SLASH && (k + 1 == b || p[k + 1]
            == SLASH))
}

/// After a `/`, the forward walk finds nothing more exactly when only
/// slashes and lone dots are left.
proof fn lemma_forward_dots(p: Seq<u8>, f: int)
    requires
        1 <= f <= p.len(),
        p[f - 1] == SLASH,
    ensures
        (next_state(p, f, p.len() as int).0 is None) <==> dots_only(p, f, p.len() as int),
    decreases p.len() - f,
{
    let n = p.len() as int;
    if f < n {
        lemma_seg_end_bounds(p, f, n);
        let end = seg_end(p, f, n);
        if p[f] == SLASH {
            assert(end == f);
            assert(p.subrange(f, end) =~= Seq::<u8>::empty());
            assert(after_seg(p, f, n) == f + 1);
            lemma_forward_dots(p, f + 1);
            if dots_only(p, f + 1, n) {
                assert forall|k: int| f <= k < n implies #[trigger] p[k] == SLASH || (p[k] == DOT && p[k - 1] == SLASH
                    && (k + 1 == n || p[k + 1] == SLASH)) by {
                    if k > f {
                        assert(f + 1 <= k < n);
                    }
                }
            }
        } else if p[f] == DOT && (f + 1 == n || p[f + 1] == SLASH) {
            assert(seg_end(p, f + 1, n) == f + 1);
            assert(end == f + 1);
            assert(p.subrange(f, end) =~= seq![DOT]);
            if f + 1 == n {
                assert(after_seg(p, f, n) == n);
                assert(next_state(p, n, n).0 is None);
            } else {
                assert(after_seg(p, f, n) == f + 2);
                if f + 2 <= n {
                    lemma_forward_dots(p, f + 2);
                }
                if f + 2 < n && dots_only(p, f + 2, n) || f + 2 == n {
                    assert forall|k: int| f <= k < n implies #[trigger] p[k] == SLASH || (p[k] == DOT && p[k - 1]
                        == SLASH && (k + 1 == n || p[k + 1] == SLASH)) by {
                        if k >= f + 2 {
                            assert(f + 2 <= k < n);
                        }
                    }
                }
                if dots_only(p, f, n) {
                    assert forall|k: int| f + 2 <= k < n implies #[trigger] p[k] == SLASH || (p[k] == DOT && p[k - 1]
                        == SLASH && (k + 1 == n || p[k + 1] == SLASH)) by {
                        assert(f <= k < n);
                    }
                }
            }
        } else {
            assert(end > f);
            let seg = p.subrange(f, end);
            if p[f] == DOT {
                assert(f + 1 < n && p[f + 1] != SLASH);
                assert(end >= f + 2);
                assert(seg.len() >= 2);
            } else {
                assert(seg[0] != DOT);
            }
            assert(!(seg =~= seq![DOT]));
            assert(classify(seg, f) is Some);
            assert(!(p[f] == SLASH || (p[f] == DOT && p[f - 1] == SLASH && (f + 1 == n || p[f + 1] == SLASH))));
        }
    }
}

/// A path has the root as its only component exactly when it starts with
/// `/` and holds nothing but slashes and lone dots.
proof fn lemma_forward_root(p: Seq<u8>)
    ensures
        (path_components(p) == seq![ComponentView::RootDir]) <==> (p.len() > 0 && p[0] == SLASH && dots_only(
            p,
            1,
            p.len() as int,
        )),
{
    let n = p.len() as int;
    if n == 0 {
        assert(path_components(p) =~= Seq::<ComponentView>::empty());
        assert(path_components(p) != seq![ComponentView::RootDir]);
    } else {
        lemma_seg_end_bounds(p, 0, n);
        let end = seg_end(p, 0, n);
        if p[0] == SLASH {
            assert(end == 0);
            assert(p.subrange(0, 0) =~= Seq::<u8>::empty());
            assert(after_seg(p, 0, n) == 1);
            assert(next_state(p, 0, n) == (Some(ComponentView::RootDir), 1int));
            lemma_forward_dots(p, 1);
            assert(path_components(p) == seq![ComponentView::RootDir] + components_from(p, 1, n));
            if next_state(p, 1, n).0 is None {
                assert(components_from(p, 1, n) =~= Seq::<ComponentView>::empty());
                assert(path_components(p) =~= seq![ComponentView::RootDir]);
            } else {
                assert(components_from(p, 1, n).len() >= 1);
                assert(path_components(p).len() >= 2);
            }
        } else {
            assert(end > 0);
            let seg = p.subrange(0, end);
            assert(classify(seg, 0) is Some);
            assert(classify(seg, 0) != Some(ComponentView::RootDir));
            let c = next_state(p, 0, n).0;
            assert(c == classify(seg, 0));
            assert(path_components(p)[0] != ComponentView::RootDir);
        }
    }
}

/// The backward walk of `p[0..b]` ends at the root exactly when `p`
/// starts with `/` and `p[1..b]` holds nothing but slashes and lone dots.
proof fn lemma_backward_root(p: Seq<u8>, b: int)
    requires
        1 <= b <= p.len(),
    ensures
        (next_back_state(p, 0, b).0 == Some(ComponentView::RootDir)) <==> (p[0] == SLASH && dots_only(p, 1, b)),
    decreases b,
{
    lemma_trim_bounds(p, b, 0);
    let end = trim_slashes_back(p, b, 0);
    lemma_seg_start_bounds(p, end, 0);
    let start = seg_start(p, end, 0);
    let seg = p.subrange(start, end);
    if end == 0 {
        assert(start == 0);
        assert(seg =~= Seq::<u8>::empty());
        assert(p[0] == SLASH);
        assert forall|k: int| 1 <= k < b implies #[trigger] p[k] == SLASH || (p[k] == DOT && p[k - 1] == SLASH && (k
            + 1 == b || p[k + 1] == SLASH)) by {}
    } else if start == 0 {
        assert(p[0] != SLASH);
        assert(seg.len() > 0);
        assert(classify(seg, 0) != Some(ComponentView::RootDir));
    } else {
        assert(p[start - 1] == SLASH);
        if seg =~= seq![DOT] {
            assert(classify(seg, start) is None);
            assert(end == start + 1);
            lemma_backward_root(p, start);
            if p[0] == SLASH && dots_only(p, 1, start) {
                assert forall|k: int| 1 <= k < b implies #[trigger] p[k] == SLASH || (p[k] == DOT && p[k - 1]
                    == SLASH && (k + 1 == b || p[k + 1] == SLASH)) by {
                    if k < start {
                        assert(1 <= k < start);
                    } else if k == start {
                        assert(p[k] == seg[0]);
                    } else {
                        assert(end <= k < b);
                    }
                }
            }
            if p[0] == SLASH && dots_only(p, 1, b) {
                assert forall|k: int| 1 <= k < start implies #[trigger] p[k] == SLASH || (p[k] == DOT && p[k - 1]
                    == SLASH && (k + 1 == start || p[k + 1] == SLASH)) by {
                    assert(1 <= k < b);
                }
            }
        } else {
            assert(seg.len() > 0);
            assert(classify(seg, start) is Some);
            assert(classify(seg, start) != Some(ComponentView::RootDir));
            let k = end - 1;
            assert(p[k] != SLASH);
            if p[k] == DOT && p[k - 1] == SLASH {
                assert(k == start);
                assert(seg =~= seq![DOT]);
            }
            assert(!(p[k] == SLASH || (p[k] == DOT && p[k - 1] == SLASH && (k + 1 == b || p[k + 1] == SLASH))));
        }
    }
}

/// A path is the root (its last component, read from the back, is the
/// root) exactly when the root is its only component.
pub proof fn lemma_is_root_components(p: Seq<u8>)
    ensures
        (next_back_state(p, 0, p.len() as int).0 == Some(ComponentView::RootDir)) <==> (path_components(p)
            == seq![ComponentView::RootDir]),
{
    lemma_forward_root(p);
    if p.len() > 0 {
        lemma_backward_root(p, p.len() as int);
    }
}

/// Offset `m` of `p` starts a segment: it is 0 or just after a `/`.
pub open spec fn at_seg_start(p: Seq<u8>, m: int) -> bool {
    m == 0 || p[m - 1] == SLASH
}

/// The forward walk of `p[f..b]` reads the segments before a segment start
/// `m` as the walk of `p[f..m]` does, and goes on from `m` once they are
/// all skipped.
proof fn lemma_next_state_split(p: Seq<u8>, f: int, m: int, b: int)
    requires
        0 <= f <= m <= b <= p.len(),
        at_seg_start(p, m),
    ensures
        next_state(p, f, b) == (if next_state(p, f, m).0 is Some {
            next_state(p, f, m)
        } else {
            next_state(p, m, b)
        }),
    decreases m - f,
{
    if f < m {
        lemma_seg_end_bounds(p, f, m);
        lemma_seg_end_bounds(p, f, b);
        assert(p[m - 1] == SLASH);
        assert(seg_end(p, f, b) == seg_end(p, f, m)) by {
            lemma_seg_end_stops(p, f, m, b);
        }
        let end = seg_end(p, f, m);
        assert(end < m);
        assert(after_seg(p, f, b) == after_seg(p, f, m));
        lemma_next_state_split(p, after_seg(p, f, m), m, b);
    } else {
        assert(next_state(p, f, m).0 is None);
    }
}

/// A segment that ends before `m` ends at the same place whatever the
/// bound past `m`.
proof fn lemma_seg_end_stops(p: Seq<u8>, i: int, m: int, b: int)
    requires
        0 <= i < m <= b <= p.len(),
        p[m - 1] == SLASH,
    ensures
        seg_end(p, i, b) == seg_end(p, i, m),
    decreases m - i,
{
    if p[i] != SLASH {
        if i + 1 < m {
            lemma_seg_end_stops(p, i + 1, m, b);
        } else {
            assert(i == m - 1);
        }
    }
}

/// The forward walk of `p[f..b]` reads the components of `p[f..m]` and
/// then those of `p[m..b]`, for a segment start `m`.
proof fn lemma_components_split(p: Seq<u8>, f: int, m: int, b: int)
    requires
        0 <= f <= m <= b <= p.len(),
        at_seg_start(p, m),
    ensures
        components_from(p, f, b) == components_from(p, f, m) + components_from(p, m, b),
    decreases m - f,
{
    lemma_next_state_split(p, f, m, b);
    lemma_next_state_progress(p, f, m);
    lemma_next_state_progress(p, f, b);
    let (c, nf) = next_state(p, f, m);
    if c is Some {
        if nf < m {
            lemma_components_split(p, nf, m, b);
            assert(components_from(p, f, b) =~= components_from(p, f, m) + components_from(p, m, b));
        } else {
            assert(nf == m);
            assert(next_state(p, m, m).0 is None);
            assert(components_from(p, m, m) =~= Seq::<ComponentView>::empty());
            assert(components_from(p, f, m) =~= seq![c->0]);
        }
    } else {
        lemma_next_state_progress(p, m, b);
        assert(components_from(p, f, m) =~= Seq::<ComponentView>::empty());
        assert(components_from(p, f, b) == components_from(p, m, b));
        assert(components_from(p, f, b) =~= components_from(p, f, m) + components_from(p, m, b));
    }
}

/// Past offset 0, a run of slashes yields no component.
proof fn lemma_slashes_none(p: Seq<u8>, a: int, b: int)
    requires
        0 < a <= b <= p.len(),
        forall|k: int| a <= k < b ==> p[k] == SLASH,
    ensures
        next_state(p, a, b).0 is None,
        components_from(p, a, b) == Seq::<ComponentView>::empty(),
    decreases b - a,
{
    if a < b {
        assert(seg_end(p, a, b) == a);
        assert(p.subrange(a, a) =~= Seq::<u8>::empty());
        assert(after_seg(p, a, b) == a + 1);
        lemma_slashes_none(p, a + 1, b);
    }
    assert(components_from(p, a, b) =~= Seq::<ComponentView>::empty());
}

/// A segment with no `/` in `p[i..e]` and a `/` (or the bound) at `e` ends
/// at `e`.
proof fn lemma_seg_end_at(p: Seq<u8>, i: int, e: int, b: int)
    requires
        0 <= i <= e <= b <= p.len(),
        forall|k: int| i <= k < e ==> p[k] != SLASH,
        e == b || p[e] == SLASH,
    ensures
        seg_end(p, i, b) == e,
    decreases e - i,
{
    if i < e {
        lemma_seg_end_at(p, i + 1, e, b);
    }
}

/// The forward walk of `p[f..b]` gives the components before the last one
/// that the backward walk finds, then that one; nothing when the backward
/// walk finds nothing.
proof fn lemma_last_component(p: Seq<u8>, f: int, b: int)
    requires
        0 <= f <= b <= p.len(),
        at_seg_start(p, f),
    ensures
        components_from(p, f, b) == (match next_back_state(p, f, b).0 {
            Some(c) => components_from(p, f, next_back_state(p, f, b).1) + seq![c],
            None => Seq::<ComponentView>::empty(),
        }),
    decreases b - f,
{
    if f >= b {
        assert(next_state(p, f, b).0 is None);
        assert(components_from(p, f, b) =~= Seq::<ComponentView>::empty());
    } else {
        lemma_trim_bounds(p, b, f);
        let end = trim_slashes_back(p, b, f);
        lemma_seg_start_bounds(p, end, f);
        let start = seg_start(p, end, f);
        assert(start < b) by {
            if start == b {
                assert(end == b);
                assert(p[b - 1] != SLASH);
            }
        }
        assert(at_seg_start(p, start));
        lemma_components_split(p, f, start, b);
        lemma_seg_end_at(p, start, end, b);
        let seg = p.subrange(start, end);
        let after = after_seg(p, start, b);
        assert(forall|k: int| end <= k < b ==> p[k] == SLASH);
        match classify(seg, start) {
            Some(c) => {
                assert(after > start) by {
                    if end == start {
                        assert(end < b);
                    }
                }
                if after < b {
                    lemma_slashes_none(p, after, b);
                } else {
                    assert(next_state(p, b, b).0 is None);
                    assert(components_from(p, b, b) =~= Seq::<ComponentView>::empty());
                }
                assert(next_state(p, start, b) == (Some(c), after));
                assert(components_from(p, start, b) =~= seq![c]);
                assert(next_back_state(p, f, b) == (Some(c), start));
            },
            None => {
                if after < b {
                    lemma_slashes_none(p, after, b);
                } else {
                    assert(next_state(p, b, b).0 is None);
                }
                assert(after > 0) by {
                    if end == start {
                        assert(start > 0 || seg.len() > 0);
                    }
                }
                assert(next_state(p, start, b).0 is None);
                assert(components_from(p, start, b) =~= Seq::<ComponentView>::empty());
                assert(next_back_state(p, f, b) == next_back_state(p, f, start));
                lemma_last_component(p, f, start);
                assert(components_from(p, f, b) =~= components_from(p, f, start));
            },
        }
    }
}

/// The components the backward walk of `p[f..b]` gives, the last first.
pub open spec fn back_components(p: Seq<u8>, f: int, b: int) -> Seq<ComponentView>
    decreases b - f,
{
    let (c, nb) = next_back_state(p, f, b);
    match c {
        None => Seq::empty(),
        Some(c) => if f <= nb < b {
            seq![c] + back_components(p, f, nb)
        } else {
            seq![c]
        },
    }
}

/// Walking `p[0..b]` from the back gives its components in reverse order.
proof fn lemma_back_reversed(p: Seq<u8>, b: int)
    requires
        0 <= b <= p.len(),
    ensures
        back_components(p, 0, b).reverse() == components_from(p, 0, b),
    decreases b,
{
    lemma_last_component(p, 0, b);
    lemma_next_back_state_progress(p, 0, b);
    let (c, nb) = next_back_state(p, 0, b);
    match c {
        None => {
            assert(back_components(p, 0, b) =~= Seq::<ComponentView>::empty());
            assert(back_components(p, 0, b).reverse() =~= Seq::<ComponentView>::empty());
        },
        Some(c) => {
            lemma_back_reversed(p, nb);
            let rest = back_components(p, 0, nb);
            assert(back_components(p, 0, b) == seq![c] + rest);
            assert((seq![c] + rest).reverse() =~= rest.reverse() + seq![c]);
        },
    }
}

/// Walking a path from the back gives its components in reverse order.
pub proof fn lemma_back_walk_reversed(p: Seq<u8>)
    ensures
        back_components(p, 0, p.len() as int).reverse() == path_components(p),
{
    lemma_back_reversed(p, p.len() as int);
}

/// Segment ends agree where two byte strings agree before the bound.
proof fn lemma_seg_end_same(p: Seq<u8>, q: Seq<u8>, i: int, b: int)
    requires
        0 <= i <= b <= p.len(),
        b <= q.len(),
        forall|k: int| 0 <= k < b ==> p[k] == q[k],
    ensures
        seg_end(p, i, b) == seg_end(q, i, b),
    decreases b - i,
{
    if i < b && p[i] != SLASH {
        lemma_seg_end_same(p, q, i + 1, b);
    }
}

/// The forward walk up to `b` reads nothing past `b`.
proof fn lemma_components_prefix(p: Seq<u8>, q: Seq<u8>, f: int, b: int)
    requires
        0 <= f <= b <= p.len(),
        b <= q.len(),
        forall|k: int| 0 <= k < b ==> p[k] == q[k],
    ensures
        next_state(p, f, b) == next_state(q, f, b),
        components_from(p, f, b) == components_from(q, f, b),
    decreases b - f,
{
    if f < b {
        lemma_seg_end_same(p, q, f, b);
        lemma_seg_end_bounds(p, f, b);
        let end = seg_end(p, f, b);
        assert(p.subrange(f, end) =~= q.subrange(f, end));
        assert(after_seg(p, f, b) == after_seg(q, f, b));
        lemma_components_prefix(p, q, after_seg(p, f, b), b);
        lemma_next_state_progress(p, f, b);
        let nf = next_state(p, f, b).1;
        if next_state(p, f, b).0 is Some && f < nf <= b {
            lemma_components_prefix(p, q, nf, b);
        }
    }
}

/// `strip_end` stops at 0 or at a byte that is not `/`, and passes only
/// slashes.
proof fn lemma_strip_end_props(buf: Seq<u8>, e: int)
    requires
        0 <= e < buf.len(),
    ensures
        0 <= strip_end(buf, e) <= e,
        strip_end(buf, e) == 0 || buf[strip_end(buf, e)] != SLASH,
        forall|k: int| strip_end(buf, e) < k <= e ==> buf[k] == SLASH,
    decreases e,
{
    if e > 0 && buf[e] == SLASH {
        lemma_strip_end_props(buf, e - 1);
    }
}

/// The parent of a path whose last component is a name or `..` has the
/// components of the path but that last one.
pub proof fn lemma_parent_components(p: Seq<u8>)
    requires
        next_back_state(p, 0, p.len() as int).0 matches Some(c) && (c is Normal || c is ParentDir),
    ensures
        path_components(as_path_bytes(p, 0, next_back_state(p, 0, p.len() as int).1)) == path_components(
            p,
        ).drop_last(),
{
    let n = p.len() as int;
    lemma_last_component(p, 0, n);
    lemma_next_back_state_progress(p, 0, n);
    let (c, nb) = next_back_state(p, 0, n);
    let c = c->0;
    assert(path_components(p) == components_from(p, 0, nb) + seq![c]);
    assert((components_from(p, 0, nb) + seq![c]).drop_last() =~= components_from(p, 0, nb));
    if nb == 0 {
        assert(next_state(p, 0, 0).0 is None);
        assert(components_from(p, 0, 0) =~= Seq::<ComponentView>::empty());
        assert(as_path_bytes(p, 0, nb) =~= Seq::<u8>::empty());
        assert(path_components(Seq::<u8>::empty()) =~= Seq::<ComponentView>::empty());
    } else {
        lemma_nb_after_slash(p, n);
        assert(p[nb - 1] == SLASH);
        lemma_strip_end_props(p, nb - 1);
        let j = strip_end(p, nb - 1);
        let e = j + 1;
        let q = p.subrange(0, e);
        assert(as_path_bytes(p, 0, nb) == q);
        if e == nb {
            lemma_components_prefix(p, q, 0, nb);
        } else {
            assert(p[e] == SLASH);
            lemma_components_split(p, 0, e + 1, nb);
            if e + 1 < nb {
                lemma_slashes_none(p, e + 1, nb);
            } else {
                assert(next_state(p, nb, nb).0 is None);
                assert(components_from(p, nb, nb) =~= Seq::<ComponentView>::empty());
            }
            assert(components_from(p, 0, nb) =~= components_from(p, 0, e + 1));
            let q1 = p.subrange(0, e + 1);
            lemma_components_prefix(p, q1, 0, e + 1);
            assert(q1 =~= q.push(SLASH));
            lemma_trailing_slash_ignored(q);
            lemma_components_prefix(p, q, 0, e);
            assert(components_from(p, 0, e + 1) == path_components(q1));
        }
    }
}

/// When the backward walk stops past offset 0, it stops just after a `/`.
proof fn lemma_nb_after_slash(p: Seq<u8>, b: int)
    requires
        0 <= b <= p.len(),
    ensures
        next_back_state(p, 0, b).1 > 0 ==> p[next_back_state(p, 0, b).1 - 1] == SLASH,
    decreases b,
{
    if b > 0 {
        lemma_trim_bounds(p, b, 0);
        let end = trim_slashes_back(p, b, 0);
        lemma_seg_start_bounds(p, end, 0);
        let start = seg_start(p, end, 0);
        if classify(p.subrange(start, end), start) is None {
            assert(start < b) by {
                if start == b {
                    assert(end == b);
                }
            }
            lemma_nb_after_slash(p, start);
        }
    }
}

/// Segment ends move with the bytes when a stretch is shifted by `d`.
proof fn lemma_seg_end_shift(p: Seq<u8>, q: Seq<u8>, i: int, b: int, d: int)
    requires
        0 <= i <= b <= p.len(),
        0 <= i + d,
        b + d <= q.len(),
        forall|k: int| i <= k < b ==> q[k + d] == p[k],
    ensures
        seg_end(q, i + d, b + d) == seg_end(p, i, b) + d,
    decreases b - i,
{
    if i < b && p[i] != SLASH {
        lemma_seg_end_shift(p, q, i + 1, b, d);
    }
}

/// Past offset 0, the forward walk reads a stretch the same wherever it
/// lies.
proof fn lemma_components_shift(p: Seq<u8>, q: Seq<u8>, f: int, b: int, d: int)
    requires
        0 < f <= b <= p.len(),
        0 < f + d,
        b + d <= q.len(),
        forall|k: int| f <= k < b ==> q[k + d] == p[k],
    ensures
        next_state(q, f + d, b + d).0 == next_state(p, f, b).0,
        next_state(q, f + d, b + d).1 == next_state(p, f, b).1 + d,
        components_from(q, f + d, b + d) == components_from(p, f, b),
    decreases b - f,
{
    if f < b {
        lemma_seg_end_shift(p, q, f, b, d);
        lemma_seg_end_bounds(p, f, b);
        let end = seg_end(p, f, b);
        assert(q.subrange(f + d, end + d) =~= p.subrange(f, end));
        assert(after_seg(q, f + d, b + d) == after_seg(p, f, b) + d);
        let nf = after_seg(p, f, b);
        lemma_components_shift(p, q, nf, b, d);
        lemma_next_state_progress(p, f, b);
        let nf2 = next_state(p, f, b).1;
        if next_state(p, f, b).0 is Some && f < nf2 <= b {
            lemma_components_shift(p, q, nf2, b, d);
        }
    }
}

/// `p` with the bytes `ins` put in at offset `k`.
pub open spec fn insert_at(p: Seq<u8>, k: int, ins: Seq<u8>) -> Seq<u8> {
    p.subrange(0, k) + ins + p.subrange(k, p.len() as int)
}

/// A `/` doubled, or a `.` segment put in, just after a `/` changes no
/// component: repeated slashes and `.` segments past the start are
/// ignored.
pub proof fn lemma_empty_and_dot_segments_ignored(p: Seq<u8>, k: int)
    requires
        1 <= k <= p.len(),
        p[k - 1] == SLASH,
    ensures
        path_components(insert_at(p, k, seq![SLASH])) == path_components(p),
        path_components(insert_at(p, k, seq![DOT, SLASH])) == path_components(p),
{
    let n = p.len() as int;
    lemma_components_split(p, 0, k, n);
    let q1 = insert_at(p, k, seq![SLASH]);
    let q2 = insert_at(p, k, seq![DOT, SLASH]);
    // the doubled slash
    assert(q1.len() == n + 1);
    assert(q1[k - 1] == SLASH && q1[k] == SLASH);
    lemma_components_split(q1, 0, k, n + 1);
    lemma_components_prefix(p, q1, 0, k);
    assert(seg_end(q1, k, n + 1) == k);
    assert(q1.subrange(k, k) =~= Seq::<u8>::empty());
    assert(after_seg(q1, k, n + 1) == k + 1);
    lemma_components_shift(p, q1, k, n, 1);
    if k < n {
        assert(next_state(q1, k, n + 1) == next_state(q1, k + 1, n + 1));
    } else {
        assert(next_state(q1, k + 1, n + 1).0 is None);
        assert(next_state(p, n, n).0 is None);
    }
    lemma_next_state_progress(q1, k, n + 1);
    lemma_next_state_progress(q1, k + 1, n + 1);
    assert(components_from(q1, k, n + 1) == components_from(q1, k + 1, n + 1));
    assert(path_components(q1) == path_components(p));
    // the dot segment
    assert(q2.len() == n + 2);
    assert(q2[k] == DOT && q2[k + 1] == SLASH);
    lemma_components_split(q2, 0, k, n + 2);
    lemma_components_prefix(p, q2, 0, k);
    assert(seg_end(q2, k + 1, n + 2) == k + 1);
    assert(seg_end(q2, k, n + 2) == k + 1);
    assert(q2.subrange(k, k + 1) =~= seq![DOT]);
    assert(after_seg(q2, k, n + 2) == k + 2);
    lemma_components_shift(p, q2, k, n, 2);
    if k < n {
        assert(next_state(q2, k, n + 2) == next_state(q2, k + 2, n + 2));
    } else {
        assert(next_state(q2, k + 2, n + 2).0 is None);
        assert(next_state(p, n, n).0 is None);
    }
    lemma_next_state_progress(q2, k, n + 2);
    lemma_next_state_progress(q2, k + 2, n + 2);
    assert(components_from(q2, k, n + 2) == components_from(q2, k + 2, n + 2));
    assert(path_components(q2) == path_components(p));
}
/// Whether byte `k` of `p` can be left out without changing the
/// components: a `/` just after a `/`; a `.` segment just after a `/`,
/// before a `/` or at the end; or a final `/` of a path of more than one
/// byte.
pub open spec fn removable(p: Seq<u8>, k: int) -> bool {
    ||| 1 <= k < p.len() && p[k - 1] == SLASH && p[k] == SLASH
    ||| 1 <= k < p.len() && p[k - 1] == SLASH && p[k] == DOT && (k + 1 == p.len() || p[k + 1] == SLASH)
    ||| 1 <= k && k + 1 == p.len() && p[k] == SLASH
}

/// The normal form of a path: its removable bytes left out, one at a
/// time, until none is left. It has every `.` segment past the start taken
/// out, each run of `/` made one, and no final `/` unless it is `/`.
pub open spec fn normal_form(p: Seq<u8>) -> Seq<u8>
    decreases p.len(),
{
    if exists|k: int| removable(p, k) {
        let k = choose|k: int| removable(p, k);
        normal_form(p.remove(k))
    } else {
        p
    }
}

/// Leaving out one removable byte keeps the components.
proof fn lemma_remove_one(p: Seq<u8>, k: int)
    requires
        removable(p, k),
    ensures
        path_components(p.remove(k)) == path_components(p),
{
    let r = p.remove(k);
    let n = p.len() as int;
    if 1 <= k < n && p[k - 1] == SLASH && p[k] == SLASH {
        assert(insert_at(r, k, seq![SLASH]) =~= p);
        lemma_empty_and_dot_segments_ignored(r, k);
    } else if 1 <= k < n && p[k - 1] == SLASH && p[k] == DOT && k + 1 < n && p[k + 1] == SLASH {
        let r2 = r.remove(k);
        assert(insert_at(r2, k, seq![SLASH]) =~= r);
        assert(insert_at(r2, k, seq![DOT, SLASH]) =~= p);
        lemma_empty_and_dot_segments_ignored(r2, k);
    } else if 1 <= k < n && p[k - 1] == SLASH && p[k] == DOT && k + 1 == n {
        assert(insert_at(r, k, seq![DOT, SLASH]) =~= p.push(SLASH));
        lemma_empty_and_dot_segments_ignored(r, k);
        lemma_trailing_slash_ignored(p);
    } else {
        assert(r.push(SLASH) =~= p);
        lemma_trailing_slash_ignored(r);
    }
}

/// A path and its normal form have the same components, and the normal
/// form has no removable byte left: `a//b`, `a/./b` and `a/b/` all read as
/// `a/b`, while a leading `.` or `/` stays.
pub proof fn lemma_normal_form_components(p: Seq<u8>)
    ensures
        path_components(normal_form(p)) == path_components(p),
        forall|k: int| !#[trigger] removable(normal_form(p), k),
    decreases p.len(),
{
    if exists|k: int| removable(p, k) {
        let k = choose|k: int| removable(p, k);
        lemma_remove_one(p, k);
        lemma_normal_form_components(p.remove(k));
    }
}
} // verus!
