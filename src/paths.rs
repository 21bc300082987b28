use vstd::prelude::*;

verus! {

/// The byte `/`.
pub const SEP: u8 = 47;

/// The byte `.`.
pub const DOT: u8 = 46;

pub open spec fn is_absolute(p: Seq<u8>) -> bool {
    p.len() > 0 && p[0] == SEP
}

/// `p` with `name` appended as one more component. An absolute `name`
/// replaces `p`, and no separator is doubled or added to an empty `p`.
pub open spec fn join_spec(p: Seq<u8>, name: Seq<u8>) -> Seq<u8> {
    if is_absolute(name) {
        name
    } else if p.len() == 0 || p.last() == SEP {
        p + name
    } else {
        p + seq![SEP] + name
    }
}

/// Index of the last separator in `p`, or -1.
pub open spec fn last_sep(p: Seq<u8>) -> int
    decreases p.len(),
{
    if p.len() == 0 {
        -1
    } else if p.last() == SEP {
        p.len() - 1
    } else {
        last_sep(p.drop_last())
    }
}

/// The directory that holds `p`, for a path without a trailing separator;
/// `None` for the root and for the empty path.
pub open spec fn parent_spec(p: Seq<u8>) -> Option<Seq<u8>> {
    if p.len() == 0 || p == seq![SEP] {
        None
    } else if last_sep(p) < 0 {
        Some(Seq::empty())
    } else if last_sep(p) == 0 {
        Some(seq![SEP])
    } else {
        Some(p.subrange(0, last_sep(p)))
    }
}

/// The last component of `p`; the root is its own last component.
pub open spec fn last_segment_spec(p: Seq<u8>) -> Seq<u8> {
    if p == seq![SEP] {
        p
    } else {
        p.subrange(last_sep(p) + 1, p.len() as int)
    }
}

/// Whether `root` is `p` or one of the directories above it, read on bytes.
pub open spec fn is_under(root: Seq<u8>, p: Seq<u8>) -> bool {
    &&& root.len() <= p.len()
    &&& p.subrange(0, root.len() as int) == root
    &&& (p.len() == root.len() || (root.len() > 0 && root.last() == SEP) || p[root.len() as int]
        == SEP)
}

/// `p` relative to `root`, without a leading separator; `p` itself where
/// `root` does not hold it.
pub open spec fn relative_spec(p: Seq<u8>, root: Seq<u8>) -> Seq<u8> {
    if !is_under(root, p) {
        p
    } else {
        let rest = p.subrange(root.len() as int, p.len() as int);
        if rest.len() > 0 && rest[0] == SEP {
            rest.subrange(1, rest.len() as int)
        } else {
            rest
        }
    }
}

/// A component that normalization keeps: not empty, no separator, not `.` or `..`.
pub open spec fn is_name(c: Seq<u8>) -> bool {
    &&& c.len() > 0
    &&& forall|i: int| 0 <= i < c.len() ==> c[i] != SEP
    &&& c != seq![DOT]
    &&& c != seq![DOT, DOT]
}

/// Ends the component `cur`: dropped when empty or `.`, pops the last kept
/// component when `..` (nothing happens at the root), kept otherwise.
pub open spec fn flush(st: Seq<Seq<u8>>, cur: Seq<u8>) -> Seq<Seq<u8>> {
    if cur.len() == 0 || cur == seq![DOT] {
        st
    } else if cur == seq![DOT, DOT] {
        if st.len() > 0 {
            st.drop_last()
        } else {
            st
        }
    } else {
        st.push(cur)
    }
}

/// Reads the bytes `b` from the state `(kept components, current component)`.
pub open spec fn scan(st: (Seq<Seq<u8>>, Seq<u8>), b: Seq<u8>) -> (Seq<Seq<u8>>, Seq<u8>)
    decreases b.len(),
{
    if b.len() == 0 {
        st
    } else {
        let s = scan(st, b.drop_last());
        if b.last() == SEP {
            (flush(s.0, s.1), Seq::empty())
        } else {
            (s.0, s.1.push(b.last()))
        }
    }
}

pub open spec fn start() -> (Seq<Seq<u8>>, Seq<u8>) {
    (Seq::empty(), Seq::empty())
}

/// The components that remain of `p` once `.` and `..` are resolved.
pub open spec fn components(p: Seq<u8>) -> Seq<Seq<u8>> {
    let s = scan(start(), p);
    flush(s.0, s.1)
}

/// `/c1/c2/...`, each component behind a separator.
pub open spec fn render_rest(cs: Seq<Seq<u8>>) -> Seq<u8>
    decreases cs.len(),
{
    if cs.len() == 0 {
        Seq::empty()
    } else {
        render_rest(cs.drop_last()) + seq![SEP] + cs.last()
    }
}

/// The absolute path with the components `cs`; the root when there are none.
pub open spec fn render(cs: Seq<Seq<u8>>) -> Seq<u8> {
    if cs.len() == 0 {
        seq![SEP]
    } else {
        render_rest(cs)
    }
}

/// `input` taken against the working directory `cwd` when it is relative.
pub open spec fn absolute_of(input: Seq<u8>, cwd: Seq<u8>) -> Seq<u8> {
    if is_absolute(input) {
        input
    } else {
        join_spec(cwd, input)
    }
}

pub open spec fn normalize_spec(input: Seq<u8>, cwd: Seq<u8>) -> Seq<u8> {
    render(components(absolute_of(input, cwd)))
}

proof fn lemma_flush_names(st: Seq<Seq<u8>>, cur: Seq<u8>)
    requires
        forall|i: int| 0 <= i < st.len() ==> is_name(#[trigger] st[i]),
        forall|i: int| 0 <= i < cur.len() ==> cur[i] != SEP,
    ensures
        forall|i: int| 0 <= i < flush(st, cur).len() ==> is_name(#[trigger] flush(st, cur)[i]),
{
}

proof fn lemma_scan_names(st: (Seq<Seq<u8>>, Seq<u8>), b: Seq<u8>)
    requires
        forall|i: int| 0 <= i < st.0.len() ==> is_name(#[trigger] st.0[i]),
        forall|i: int| 0 <= i < st.1.len() ==> st.1[i] != SEP,
    ensures
        forall|i: int| 0 <= i < scan(st, b).0.len() ==> is_name(#[trigger] scan(st, b).0[i]),
        forall|i: int| 0 <= i < scan(st, b).1.len() ==> scan(st, b).1[i] != SEP,
    decreases b.len(),
{
    if b.len() > 0 {
        lemma_scan_names(st, b.drop_last());
        let s = scan(st, b.drop_last());
        lemma_flush_names(s.0, s.1);
    }
}

/// Every component that normalization keeps is a plain name.
pub proof fn lemma_components_are_names(p: Seq<u8>)
    ensures
        forall|i: int| 0 <= i < components(p).len() ==> is_name(#[trigger] components(p)[i]),
{
    lemma_scan_names(start(), p);
    let s = scan(start(), p);
    lemma_flush_names(s.0, s.1);
}

/// Reading `a + b` is reading `a`, then `b`.
pub proof fn lemma_scan_concat(st: (Seq<Seq<u8>>, Seq<u8>), a: Seq<u8>, b: Seq<u8>)
    ensures
        scan(st, a + b) == scan(scan(st, a), b),
    decreases b.len(),
{
    if b.len() == 0 {
        assert(a + b =~= a);
    } else {
        assert((a + b).drop_last() =~= a + b.drop_last());
        lemma_scan_concat(st, a, b.drop_last());
    }
}

proof fn lemma_render_rest_starts(cs: Seq<Seq<u8>>)
    requires
        cs.len() > 0,
    ensures
        is_absolute(render_rest(cs)),
    decreases cs.len(),
{
    let head = render_rest(cs.drop_last());
    if cs.len() > 1 {
        lemma_render_rest_starts(cs.drop_last());
        assert((head + seq![SEP] + cs.last())[0] == head[0]);
    } else {
        assert(cs.drop_last() =~= Seq::<Seq<u8>>::empty());
        assert(head =~= Seq::<u8>::empty());
        assert((head + seq![SEP] + cs.last())[0] == SEP);
    }
}

/// A normalized path is absolute and is written with plain names only: it
/// holds no `.` or `..` component.
pub proof fn lemma_normalize_plain(input: Seq<u8>, cwd: Seq<u8>)
    ensures
        is_absolute(normalize_spec(input, cwd)),
        normalize_spec(input, cwd) == render(components(absolute_of(input, cwd))),
        forall|i: int|
            0 <= i < components(absolute_of(input, cwd)).len() ==> is_name(
                #[trigger] components(absolute_of(input, cwd))[i],
            ),
{
    let cs = components(absolute_of(input, cwd));
    lemma_components_are_names(absolute_of(input, cwd));
    if cs.len() > 0 {
        lemma_render_rest_starts(cs);
    }
}

/// A `..` right after the root stays at the root: `/..` followed by `rest`
/// normalizes as `/` followed by `rest` does, and `/..` alone is the root.
pub proof fn lemma_parent_of_root(rest: Seq<u8>, cwd: Seq<u8>)
    requires
        rest.len() == 0 || rest[0] == SEP,
    ensures
        normalize_spec(seq![SEP, DOT, DOT] + rest, cwd) == normalize_spec(seq![SEP] + rest, cwd),
        normalize_spec(seq![SEP, DOT, DOT], cwd) == seq![SEP],
{
    let up = seq![SEP, DOT, DOT];
    let root = seq![SEP];
    assert(is_absolute(up + rest));
    assert(is_absolute(root + rest));
    reveal_with_fuel(scan, 4);
    assert(up.drop_last() =~= seq![SEP, DOT]);
    assert(up.drop_last().drop_last() =~= seq![SEP]);
    assert(root.drop_last() =~= Seq::<u8>::empty());
    assert(seq![SEP, DOT, DOT].drop_last().drop_last().drop_last() =~= Seq::<u8>::empty());
    assert(scan(start(), up) == (Seq::<Seq<u8>>::empty(), seq![DOT, DOT]));
    assert(scan(start(), root) == (Seq::<Seq<u8>>::empty(), Seq::<u8>::empty()));
    if rest.len() == 0 {
        assert(up + rest =~= up);
        assert(components(up) =~= Seq::<Seq<u8>>::empty());
    } else {
        lemma_scan_concat(start(), up, rest);
        lemma_scan_concat(start(), root, rest);
        lemma_scan_concat(start(), up, seq![SEP]);
        lemma_scan_concat(start(), root, seq![SEP]);
        let tail = rest.subrange(1, rest.len() as int);
        assert(rest =~= seq![SEP] + tail);
        lemma_scan_concat(scan(start(), up), seq![SEP], tail);
        lemma_scan_concat(scan(start(), root), seq![SEP], tail);
        assert(seq![SEP].drop_last() =~= Seq::<u8>::empty());
        assert(scan(scan(start(), up), seq![SEP]) == scan(scan(start(), root), seq![SEP]));
    }
}

/// Appends `s` to `v`.
pub fn push_all(v: &mut Vec<u8>, s: &[u8])
    ensures
        final(v)@ == old(v)@ + s@,
{
    let mut i: usize = 0;
    while i < s.len()
        invariant
            i <= s@.len(),
            v@ == old(v)@ + s@.subrange(0, i as int),
        decreases s@.len() - i,
    {
        v.push(s[i]);
        i = i + 1;
        assert(v@ =~= old(v)@ + s@.subrange(0, i as int));
    }
    assert(s@.subrange(0, s@.len() as int) =~= s@);
}

/// Whether two byte strings are equal.
pub fn same_bytes(a: &[u8], b: &[u8]) -> (r: bool)
    ensures
        r == (a@ == b@),
{
    if a.len() != b.len() {
        return false;
    }
    let mut i: usize = 0;
    while i < a.len()
        invariant
            a@.len() == b@.len(),
            i <= a@.len(),
            forall|j: int| 0 <= j < i ==> a@[j] == b@[j],
        decreases a@.len() - i,
    {
        if a[i] != b[i] {
            return false;
        }
        i = i + 1;
    }
    assert(a@ =~= b@);
    true
}

/// A copy of `s`.
pub fn copy_bytes(s: &[u8]) -> (r: Vec<u8>)
    ensures
        r@ == s@,
{
    let mut r: Vec<u8> = Vec::new();
    push_all(&mut r, s);
    assert(r@ =~= s@);
    r
}

/// `p` joined with `name`.
pub fn join(p: &[u8], name: &[u8]) -> (r: Vec<u8>)
    ensures
        r@ == join_spec(p@, name@),
{
    if name.len() > 0 && name[0] == SEP {
        return copy_bytes(name);
    }
    let mut r = copy_bytes(p);
    if p.len() > 0 && p[p.len() - 1] != SEP {
        r.push(SEP);
    }
    push_all(&mut r, name);
    r
}

fn find_last_sep(p: &[u8]) -> (r: Option<usize>)
    ensures
        r matches Some(j) ==> j as int == last_sep(p@),
        r is None ==> last_sep(p@) == -1,
{
    let mut i: usize = p.len();
    assert(p@.subrange(0, i as int) =~= p@);
    while i > 0
        invariant
            i <= p@.len(),
            last_sep(p@) == last_sep(p@.subrange(0, i as int)),
        decreases i,
    {
        let ghost q = p@.subrange(0, i as int);
        if p[i - 1] == SEP {
            assert(q.len() == i && q[i - 1] == p@[i - 1]);
            assert(last_sep(q) == i - 1);
            return Some(i - 1);
        }
        assert(q.drop_last() =~= p@.subrange(0, i - 1));
        i = i - 1;
    }
    assert(p@.subrange(0, 0) =~= Seq::<u8>::empty());
    None
}

/// `last_sep` is -1 or the index of a separator with none after it.
pub proof fn lemma_last_sep_bounds(p: Seq<u8>)
    ensures
        -1 <= last_sep(p) < p.len(),
        last_sep(p) >= 0 ==> p[last_sep(p)] == SEP,
        forall|i: int| last_sep(p) < i < p.len() ==> p[i] != SEP,
    decreases p.len(),
{
    if p.len() > 0 {
        lemma_last_sep_bounds(p.drop_last());
        assert(forall|i: int| 0 <= i < p.len() - 1 ==> p.drop_last()[i] == #[trigger] p[i]);
    }
}

/// Bytes `s[from..to]` as a new vector.
pub fn slice_bytes(s: &[u8], from: usize, to: usize) -> (r: Vec<u8>)
    requires
        from <= to <= s@.len(),
    ensures
        r@ == s@.subrange(from as int, to as int),
{
    let mut r: Vec<u8> = Vec::new();
    let mut i = from;
    while i < to
        invariant
            from <= i <= to,
            to <= s@.len(),
            r@ == s@.subrange(from as int, i as int),
        decreases to - i,
    {
        r.push(s[i]);
        i = i + 1;
        assert(r@ =~= s@.subrange(from as int, i as int));
    }
    r
}

/// The directory that holds `p` (see `parent_spec`).
pub fn parent(p: &[u8]) -> (r: Option<Vec<u8>>)
    ensures
        r matches Some(q) ==> parent_spec(p@) == Some(q@),
        r is None ==> parent_spec(p@) is None,
{
    if p.len() == 0 || (p.len() == 1 && p[0] == SEP) {
        assert(p@.len() == 1 ==> p@ =~= seq![SEP]);
        return None;
    }
    assert(p@ != seq![SEP]);
    let j = find_last_sep(p);
    proof {
        lemma_last_sep_bounds(p@);
    }
    match j {
        None => Some(Vec::new()),
        Some(0) => {
            let mut r: Vec<u8> = Vec::new();
            r.push(SEP);
            assert(r@ =~= seq![SEP]);
            Some(r)
        },
        Some(j) => Some(slice_bytes(p, 0, j)),
    }
}

/// The last component of `p` (see `last_segment_spec`).
pub fn last_segment(p: &[u8]) -> (r: Vec<u8>)
    ensures
        r@ == last_segment_spec(p@),
{
    if p.len() == 1 && p[0] == SEP {
        assert(p@ =~= seq![SEP]);
        return copy_bytes(p);
    }
    assert(p@ != seq![SEP]);
    let j = find_last_sep(p);
    proof {
        lemma_last_sep_bounds(p@);
    }
    match j {
        None => slice_bytes(p, 0, p.len()),
        Some(j) => slice_bytes(p, j + 1, p.len()),
    }
}

/// `p` relative to `root` (see `relative_spec`).
pub fn relative(p: &[u8], root: &[u8]) -> (r: Vec<u8>)
    ensures
        r@ == relative_spec(p@, root@),
{
    if root.len() > p.len() {
        return copy_bytes(p);
    }
    let head = slice_bytes(p, 0, root.len());
    if !same_bytes(head.as_slice(), root) {
        return copy_bytes(p);
    }
    let n = root.len();
    if !(p.len() == n || (n > 0 && root[n - 1] == SEP) || p[n] == SEP) {
        return copy_bytes(p);
    }
    if n < p.len() && p[n] == SEP {
        slice_bytes(p, n + 1, p.len())
    } else {
        slice_bytes(p, n, p.len())
    }
}

fn is_dot_or_empty(cur: &Vec<u8>) -> (r: bool)
    ensures
        r == (cur@.len() == 0 || cur@ == seq![DOT]),
{
    if cur.len() == 0 {
        return true;
    }
    let r = cur.len() == 1 && cur[0] == DOT;
    assert(r ==> cur@ =~= seq![DOT]);
    r
}

fn is_dot_dot(cur: &Vec<u8>) -> (r: bool)
    ensures
        r == (cur@ == seq![DOT, DOT]),
{
    let r = cur.len() == 2 && cur[0] == DOT && cur[1] == DOT;
    assert(r ==> cur@ =~= seq![DOT, DOT]);
    r
}

pub open spec fn views(v: Seq<Vec<u8>>) -> Seq<Seq<u8>> {
    v.map_values(|x: Vec<u8>| x@)
}

fn flush_exec(stack: &mut Vec<Vec<u8>>, cur: Vec<u8>)
    ensures
        views(final(stack)@) == flush(views(old(stack)@), cur@),
{
    if is_dot_or_empty(&cur) {
    } else if is_dot_dot(&cur) {
        if stack.len() > 0 {
            stack.pop();
            assert(views(stack@) =~= views(old(stack)@).drop_last());
        }
    } else {
        stack.push(cur);
        assert(views(stack@) =~= views(old(stack)@).push(cur@));
    }
}

/// The absolute form of `input`, taken against the working directory `cwd`
/// when it is relative, with `.` components dropped and each `..` removing
/// the component before it; a `..` at the root is dropped.
pub fn normalize(input: &[u8], cwd: &[u8]) -> (r: Vec<u8>)
    ensures
        r@ == normalize_spec(input@, cwd@),
        is_absolute(r@),
        forall|i: int|
            0 <= i < components(absolute_of(input@, cwd@)).len() ==> is_name(
                #[trigger] components(absolute_of(input@, cwd@))[i],
            ),
{
    let abs = if input.len() > 0 && input[0] == SEP {
        copy_bytes(input)
    } else {
        join(cwd, input)
    };
    let mut stack: Vec<Vec<u8>> = Vec::new();
    let mut cur: Vec<u8> = Vec::new();
    let mut i: usize = 0;
    assert(views(stack@) =~= Seq::<Seq<u8>>::empty());
    assert(abs@.subrange(0, 0) =~= Seq::<u8>::empty());
    while i < abs.len()
        invariant
            i <= abs@.len(),
            abs@ == absolute_of(input@, cwd@),
            (views(stack@), cur@) == scan(start(), abs@.subrange(0, i as int)),
        decreases abs@.len() - i,
    {
        let b = abs[i];
        assert(abs@.subrange(0, i + 1).drop_last() =~= abs@.subrange(0, i as int));
        if b == SEP {
            let c = cur;
            cur = Vec::new();
            flush_exec(&mut stack, c);
            assert(cur@ =~= Seq::<u8>::empty());
        } else {
            cur.push(b);
        }
        i = i + 1;
    }
    assert(abs@.subrange(0, abs@.len() as int) =~= abs@);
    flush_exec(&mut stack, cur);
    let mut r: Vec<u8> = Vec::new();
    let mut k: usize = 0;
    assert(views(stack@).subrange(0, 0) =~= Seq::<Seq<u8>>::empty());
    while k < stack.len()
        invariant
            k <= stack@.len(),
            r@ == render_rest(views(stack@).subrange(0, k as int)),
        decreases stack@.len() - k,
    {
        r.push(SEP);
        push_all(&mut r, stack[k].as_slice());
        assert(views(stack@).subrange(0, k + 1).drop_last() =~= views(stack@).subrange(0, k as int));
        k = k + 1;
    }
    assert(views(stack@).subrange(0, stack@.len() as int) =~= views(stack@));
    if stack.len() == 0 {
        r.push(SEP);
        assert(r@ =~= seq![SEP]);
    }
    proof {
        lemma_normalize_plain(input@, cwd@);
    }
    r
}

/// Whether `x` is one of the byte strings in `v`.
pub fn contains_bytes(v: &Vec<Vec<u8>>, x: &[u8]) -> (r: bool)
    ensures
        r == views(v@).contains(x@),
{
    let mut i: usize = 0;
    while i < v.len()
        invariant
            i <= v@.len(),
            forall|j: int| 0 <= j < i ==> (#[trigger] v@[j])@ != x@,
        decreases v@.len() - i,
    {
        if same_bytes(v[i].as_slice(), x) {
            assert(views(v@)[i as int] == x@);
            return true;
        }
        i = i + 1;
    }
    assert forall|j: int| 0 <= j < views(v@).len() implies views(v@)[j] != x@ by {
        assert(views(v@)[j] == v@[j]@);
    }
    false
}

/// Ends the component `cur` of a path read as written: empty and `.`
/// components are dropped, every other one (`..` too) is kept.
pub open spec fn keep_part(st: Seq<Seq<u8>>, cur: Seq<u8>) -> Seq<Seq<u8>> {
    if cur.len() == 0 || cur == seq![DOT] {
        st
    } else {
        st.push(cur)
    }
}

/// Reads the bytes `b` from the state `(components so far, current component)`.
pub open spec fn split_scan(st: (Seq<Seq<u8>>, Seq<u8>), b: Seq<u8>) -> (Seq<Seq<u8>>, Seq<u8>)
    decreases b.len(),
{
    if b.len() == 0 {
        st
    } else {
        let s = split_scan(st, b.drop_last());
        if b.last() == SEP {
            (keep_part(s.0, s.1), Seq::empty())
        } else {
            (s.0, s.1.push(b.last()))
        }
    }
}

/// The named components of `p` as written, without empty or `.` ones.
pub open spec fn parts(p: Seq<u8>) -> Seq<Seq<u8>> {
    let s = split_scan(start(), p);
    keep_part(s.0, s.1)
}

/// Whether a relative `p` begins with a `.` component.
pub open spec fn starts_with_cur_dir(p: Seq<u8>) -> bool {
    p.len() > 0 && p[0] == DOT && (p.len() == 1 || p[1] == SEP)
}

/// Whether `a` and `b` name the same path component by component: both
/// absolute or both relative, the same leading `.`, the same named
/// components; repeated or trailing separators and inner `.` do not count.
pub open spec fn same_path(a: Seq<u8>, b: Seq<u8>) -> bool {
    &&& is_absolute(a) == is_absolute(b)
    &&& starts_with_cur_dir(a) == starts_with_cur_dir(b)
    &&& parts(a) == parts(b)
}

fn keep_part_exec(st: &mut Vec<Vec<u8>>, cur: Vec<u8>)
    ensures
        views(final(st)@) == keep_part(views(old(st)@), cur@),
{
    if !is_dot_or_empty(&cur) {
        st.push(cur);
        assert(views(st@) =~= views(old(st)@).push(cur@));
    }
}

/// The components of `p` (see `parts`).
pub fn path_parts(p: &[u8]) -> (r: Vec<Vec<u8>>)
    ensures
        views(r@) == parts(p@),
{
    let mut st: Vec<Vec<u8>> = Vec::new();
    let mut cur: Vec<u8> = Vec::new();
    let mut i: usize = 0;
    assert(views(st@) =~= Seq::<Seq<u8>>::empty());
    assert(p@.subrange(0, 0) =~= Seq::<u8>::empty());
    while i < p.len()
        invariant
            i <= p@.len(),
            (views(st@), cur@) == split_scan(start(), p@.subrange(0, i as int)),
        decreases p@.len() - i,
    {
        let b = p[i];
        assert(p@.subrange(0, i + 1).drop_last() =~= p@.subrange(0, i as int));
        if b == SEP {
            let c = cur;
            cur = Vec::new();
            keep_part_exec(&mut st, c);
            assert(cur@ =~= Seq::<u8>::empty());
        } else {
            cur.push(b);
        }
        i = i + 1;
    }
    assert(p@.subrange(0, p@.len() as int) =~= p@);
    keep_part_exec(&mut st, cur);
    st
}

fn same_parts(a: &Vec<Vec<u8>>, b: &Vec<Vec<u8>>) -> (r: bool)
    ensures
        r == (views(a@) == views(b@)),
{
    if a.len() != b.len() {
        assert(views(a@).len() != views(b@).len());
        return false;
    }
    let mut i: usize = 0;
    while i < a.len()
        invariant
            a@.len() == b@.len(),
            i <= a@.len(),
            forall|j: int| 0 <= j < i ==> views(a@)[j] == views(b@)[j],
        decreases a@.len() - i,
    {
        if !same_bytes(a[i].as_slice(), b[i].as_slice()) {
            assert(views(a@)[i as int] != views(b@)[i as int]);
            return false;
        }
        i = i + 1;
    }
    assert(views(a@) =~= views(b@));
    true
}

/// Whether `a` and `b` are the same path (see `same_path`).
pub fn is_same_path(a: &[u8], b: &[u8]) -> (r: bool)
    ensures
        r == same_path(a@, b@),
{
    let abs_a = a.len() > 0 && a[0] == SEP;
    let abs_b = b.len() > 0 && b[0] == SEP;
    let cur_a = a.len() > 0 && a[0] == DOT && (a.len() == 1 || a[1] == SEP);
    let cur_b = b.len() > 0 && b[0] == DOT && (b.len() == 1 || b[1] == SEP);
    if abs_a != abs_b || cur_a != cur_b {
        return false;
    }
    let pa = path_parts(a);
    let pb = path_parts(b);
    same_parts(&pa, &pb)
}

} // verus!
