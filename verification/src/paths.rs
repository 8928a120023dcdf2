//! Workspace path arithmetic over Unix-style path strings.
//!
//! A path is modelled by its components, as `Path::components` yields them:
//! a leading `/` is the root component (spelled `"/"`), a leading `.` of a
//! relative path is the current-directory component (`"."`), and the rest
//! are the `/`-separated pieces with empty and `.` pieces dropped (`".."`
//! stays).  A `PathBuf` built by pushing components renders as `pushed`.
use vstd::prelude::*;
use crate::order::{push_str_key, str_key};
use crate::text::{chars_equal, chars_of, string_from_chars};

verus! {

/// The pieces of `s` between `/` separators, empty ones included.
pub open spec fn split_on_slash(s: Seq<char>) -> Seq<Seq<char>>
    decreases s.len(),
{
    if s.len() == 0 {
        seq![seq![]]
    } else {
        let prev = split_on_slash(s.drop_last());
        if s.last() == '/' {
            prev.push(seq![])
        } else {
            prev.update(prev.len() - 1, prev.last().push(s.last()))
        }
    }
}

pub open spec fn root_component() -> Seq<char> {
    seq!['/']
}

pub open spec fn current_component() -> Seq<char> {
    seq!['.']
}

pub open spec fn parent_component() -> Seq<char> {
    seq!['.', '.']
}

/// Whether the path starts at the root.
pub open spec fn has_root(s: Seq<char>) -> bool {
    s.len() > 0 && s[0] == '/'
}

/// Whether a relative path starts with a `.` component.
pub open spec fn starts_with_current(s: Seq<char>) -> bool {
    !has_root(s) && s.len() > 0 && s[0] == '.' && (s.len() == 1 || s[1] == '/')
}

/// The pieces that name components: all but the empty ones and `.`.
pub open spec fn kept_segments(segs: Seq<Seq<char>>) -> Seq<Seq<char>>
    decreases segs.len(),
{
    if segs.len() == 0 {
        seq![]
    } else {
        let prev = kept_segments(segs.drop_last());
        if segs.last().len() == 0 || segs.last() == current_component() {
            prev
        } else {
            prev.push(segs.last())
        }
    }
}

/// The components of a path (`Path::components`).
pub open spec fn path_components(s: Seq<char>) -> Seq<Seq<char>> {
    let head: Seq<Seq<char>> = if has_root(s) {
        seq![root_component()]
    } else if starts_with_current(s) {
        seq![current_component()]
    } else {
        seq![]
    };
    head + kept_segments(split_on_slash(s))
}

/// `PathBuf::push` of one component: a rooted component replaces the
/// buffer, otherwise a separator is added unless the buffer is empty or
/// already ends with one.
pub open spec fn push_component(buf: Seq<char>, c: Seq<char>) -> Seq<char> {
    if c.len() > 0 && c[0] == '/' {
        c
    } else if buf.len() == 0 {
        c
    } else if buf.last() == '/' {
        buf + c
    } else {
        buf + seq!['/'] + c
    }
}

/// The path that pushing every component of `cs` onto an empty `PathBuf`
/// builds.
pub open spec fn pushed(cs: Seq<Seq<char>>) -> Seq<char>
    decreases cs.len(),
{
    if cs.len() == 0 {
        seq![]
    } else {
        push_component(pushed(cs.drop_last()), cs.last())
    }
}

/// One step of lexical normalisation: `.` is dropped, `..` removes the last
/// component unless there is none or only the root (then it is kept).
pub open spec fn normalize_step(stack: Seq<Seq<char>>, c: Seq<char>) -> Seq<Seq<char>> {
    if c == current_component() {
        stack
    } else if c == parent_component() {
        if stack.len() > 0 && stack.last() != root_component() {
            stack.drop_last()
        } else {
            stack.push(c)
        }
    } else if c == root_component() {
        seq![c]
    } else {
        stack.push(c)
    }
}

/// The components left after normalising `cs` from left to right.
pub open spec fn normalize_components(cs: Seq<Seq<char>>) -> Seq<Seq<char>>
    decreases cs.len(),
{
    if cs.len() == 0 {
        seq![]
    } else {
        normalize_step(normalize_components(cs.drop_last()), cs.last())
    }
}

/// The lexically normalised form of a path.
pub open spec fn normalized(s: Seq<char>) -> Seq<char> {
    pushed(normalize_components(path_components(s)))
}

/// The components of `Path::parent`: all but the last, and none for a path
/// that is empty or only the root.
pub open spec fn parent_components(s: Seq<char>) -> Seq<Seq<char>> {
    let cs = path_components(s);
    if cs.len() == 0 || cs.last() == root_component() {
        seq![]
    } else {
        cs.drop_last()
    }
}

/// `target` resolved against the directory that contains `from`.
pub open spec fn resolved_relative(from: Seq<char>, target: Seq<char>) -> Seq<char> {
    if has_root(target) {
        normalized(target)
    } else {
        pushed(normalize_components(parent_components(from) + path_components(target)))
    }
}

/// The length of the longest common prefix of `a` and `b` starting at `i`.
pub open spec fn common_prefix_from(a: Seq<Seq<char>>, b: Seq<Seq<char>>, i: int) -> int
    decreases a.len() - i,
{
    if 0 <= i < a.len() && i < b.len() && a[i] == b[i] {
        common_prefix_from(a, b, i + 1)
    } else {
        i
    }
}

/// `n` parent components.
pub open spec fn ups(n: nat) -> Seq<Seq<char>>
    decreases n,
{
    if n == 0 {
        seq![]
    } else {
        ups((n - 1) as nat).push(parent_component())
    }
}

/// The path of `target` relative to the directory that contains `from`:
/// one `..` per component of that directory after the shared prefix, then
/// the rest of `target`.
pub open spec fn relative_path_spec(from: Seq<char>, target: Seq<char>) -> Seq<char> {
    let f = parent_components(from);
    let t = path_components(target);
    let common = common_prefix_from(f, t, 0);
    pushed(ups((f.len() - common) as nat) + t.skip(common))
}

pub open spec fn views(v: Seq<Vec<char>>) -> Seq<Seq<char>> {
    v.map_values(|x: Vec<char>| x@)
}

proof fn lemma_split_nonempty(s: Seq<char>)
    ensures
        split_on_slash(s).len() >= 1,
    decreases s.len(),
{
    if s.len() > 0 {
        lemma_split_nonempty(s.drop_last());
    }
}

/// The pieces of `chars` between separators.
fn split_segments(chars: &Vec<char>) -> (segs: Vec<Vec<char>>)
    ensures
        views(segs@) == split_on_slash(chars@),
{
    let mut done: Vec<Vec<char>> = Vec::new();
    let mut current: Vec<char> = Vec::new();
    let mut i: usize = 0;
    while i < chars.len()
        invariant
            i <= chars.len(),
            views(done@).push(current@) == split_on_slash(chars@.take(i as int)),
        decreases chars.len() - i,
    {
        let c = chars[i];
        proof {
            assert(chars@.take(i + 1).drop_last() == chars@.take(i as int));
            assert(chars@.take(i + 1).last() == c);
        }
        if c == '/' {
            let ghost old_done = done@;
            let finished = current;
            done.push(finished);
            current = Vec::new();
            proof {
                assert(views(done@) == views(old_done).push(finished@));
                assert(views(done@).push(current@) == views(old_done).push(finished@).push(seq![]));
            }
        } else {
            let ghost old_current = current@;
            current.push(c);
            proof {
                let prev = views(done@).push(old_current);
                assert(prev.update(prev.len() - 1, prev.last().push(c)) == views(done@).push(current@));
            }
        }
        i = i + 1;
    }
    proof {
        assert(chars@.take(chars.len() as int) == chars@);
        assert(views(done@.push(current)) == views(done@).push(current@));
    }
    done.push(current);
    done
}

proof fn lemma_views_push(v: Seq<Vec<char>>, x: Vec<char>)
    ensures
        views(v.push(x)) == views(v).push(x@),
{
    assert(views(v.push(x)) =~= views(v).push(x@));
}

/// The components of a path, as `Path::components` yields them.
pub fn components(path: &str) -> (cs: Vec<Vec<char>>)
    ensures
        views(cs@) == path_components(path@),
{
    let chars = chars_of(path);
    let segs = split_segments(&chars);
    let mut cs: Vec<Vec<char>> = Vec::new();
    let n = chars.len();
    if n > 0 && chars[0] == '/' {
        let root: Vec<char> = vec!['/'];
        cs.push(root);
        proof {
            assert(root@ =~= root_component());
            assert(views(cs@) =~= seq![root_component()]);
        }
    } else if n > 0 && chars[0] == '.' && (n == 1 || chars[1] == '/') {
        let current: Vec<char> = vec!['.'];
        cs.push(current);
        proof {
            assert(current@ =~= current_component());
            assert(views(cs@) =~= seq![current_component()]);
        }
    } else {
        proof {
            assert(views(cs@) =~= Seq::<Seq<char>>::empty());
        }
    }
    let ghost head = views(cs@);
    proof {
        assert(head == (if has_root(path@) {
            seq![root_component()]
        } else if starts_with_current(path@) {
            seq![current_component()]
        } else {
            Seq::<Seq<char>>::empty()
        }));
    }
    let mut i: usize = 0;
    while i < segs.len()
        invariant
            i <= segs.len(),
            views(cs@) == head + kept_segments(views(segs@).take(i as int)),
        decreases segs.len() - i,
    {
        let seg = &segs[i];
        proof {
            assert(views(segs@).take(i + 1).drop_last() == views(segs@).take(i as int));
            assert(views(segs@).take(i + 1).last() == seg@);
        }
        let skip = seg.len() == 0 || (seg.len() == 1 && seg[0] == '.');
        proof {
            if seg@ == current_component() {
                assert(seg.len() == 1 && seg[0] == '.');
            }
            if seg.len() == 1 && seg[0] == '.' {
                assert(seg@ =~= current_component());
            }
        }
        if !skip {
            let ghost before = cs@;
            cs.push(seg.clone());
            proof {
                lemma_views_push(before, segs@[i as int]);
            }
        }
        i = i + 1;
    }
    proof {
        assert(views(segs@).take(segs.len() as int) == views(segs@));
    }
    cs
}

/// `PathBuf::push` of one component onto `buf`.
pub fn push_onto(buf: &mut Vec<char>, c: &Vec<char>)
    ensures
        final(buf)@ == push_component(old(buf)@, c@),
{
    if c.len() > 0 && c[0] == '/' {
        *buf = c.clone();
        assert(buf@ == c@);
    } else {
        if buf.len() > 0 && buf[buf.len() - 1] != '/' {
            buf.push('/');
        }
        let mut j: usize = 0;
        let ghost base = buf@;
        while j < c.len()
            invariant
                j <= c.len(),
                buf@ == base + c@.take(j as int),
            decreases c.len() - j,
        {
            buf.push(c[j]);
            assert(c@.take(j + 1) == c@.take(j as int).push(c@[j as int]));
            j = j + 1;
        }
        assert(c@.take(c.len() as int) == c@);
    }
}

/// The path built by pushing each component in turn.
pub fn push_all(cs: &Vec<Vec<char>>) -> (path: Vec<char>)
    ensures
        path@ == pushed(views(cs@)),
{
    let mut buf: Vec<char> = Vec::new();
    let mut i: usize = 0;
    while i < cs.len()
        invariant
            i <= cs.len(),
            buf@ == pushed(views(cs@).take(i as int)),
        decreases cs.len() - i,
    {
        proof {
            assert(views(cs@).take(i + 1).drop_last() == views(cs@).take(i as int));
            assert(views(cs@).take(i + 1).last() == cs@[i as int]@);
        }
        push_onto(&mut buf, &cs[i]);
        i = i + 1;
    }
    assert(views(cs@).take(cs.len() as int) == views(cs@));
    buf
}

fn is_component(c: &Vec<char>, dots: usize) -> (b: bool)
    requires
        dots == 1 || dots == 2,
    ensures
        b == (if dots == 1 {
            c@ == current_component()
        } else {
            c@ == parent_component()
        }),
{
    let b = c.len() == dots && c[0] == '.' && (dots == 1 || c[1] == '.');
    proof {
        if b {
            if dots == 1 {
                assert(c@ =~= current_component());
            } else {
                assert(c@ =~= parent_component());
            }
        }
    }
    b
}

/// Lexical normalisation of a component sequence.
pub fn normalize_all(cs: &Vec<Vec<char>>) -> (out: Vec<Vec<char>>)
    ensures
        views(out@) == normalize_components(views(cs@)),
{
    let mut stack: Vec<Vec<char>> = Vec::new();
    let mut i: usize = 0;
    while i < cs.len()
        invariant
            i <= cs.len(),
            views(stack@) == normalize_components(views(cs@).take(i as int)),
        decreases cs.len() - i,
    {
        let c = &cs[i];
        proof {
            assert(views(cs@).take(i + 1).drop_last() == views(cs@).take(i as int));
            assert(views(cs@).take(i + 1).last() == c@);
        }
        let ghost before = stack@;
        if is_component(c, 1) {
        } else if is_component(c, 2) {
            let n = stack.len();
            let poppable = n > 0 && !(stack[n - 1].len() == 1 && stack[n - 1][0] == '/');
            proof {
                if n > 0 {
                    let last = stack@[n - 1]@;
                    assert(views(stack@).last() == last);
                    if last == root_component() {
                        assert(last.len() == 1 && last[0] == '/');
                    }
                    if last.len() == 1 && last[0] == '/' {
                        assert(last =~= root_component());
                    }
                }
            }
            if poppable {
                stack.pop();
                proof {
                    assert(views(stack@) =~= views(before).drop_last());
                }
            } else {
                stack.push(c.clone());
                proof {
                    lemma_views_push(before, *c);
                }
            }
        } else if c.len() == 1 && c[0] == '/' {
            proof {
                assert(c@ =~= root_component());
            }
            stack = Vec::new();
            stack.push(c.clone());
            proof {
                assert(views(stack@) =~= seq![c@]);
            }
        } else {
            proof {
                if c@ == root_component() {
                    assert(c.len() == 1 && c[0] == '/');
                }
            }
            stack.push(c.clone());
            proof {
                lemma_views_push(before, *c);
            }
        }
        i = i + 1;
    }
    assert(views(cs@).take(cs.len() as int) == views(cs@));
    stack
}

/// Lexically normalises a path: `.` components are dropped and `..` removes
/// the component before it where there is one other than the root; a `..`
/// with nothing left to remove is kept.  The file system is not consulted.
pub fn normalize(path: &str) -> (out: String)
    ensures
        out@ == normalized(path@),
{
    let cs = components(path);
    let stack = normalize_all(&cs);
    let buf = push_all(&stack);
    string_from_chars(&buf)
}

fn parent_of(path: &str) -> (cs: Vec<Vec<char>>)
    ensures
        views(cs@) == parent_components(path@),
{
    let mut cs = components(path);
    let n = cs.len();
    if n == 0 {
        return cs;
    }
    let last_is_root = cs[n - 1].len() == 1 && cs[n - 1][0] == '/';
    proof {
        let last = cs@[n - 1]@;
        assert(views(cs@).last() == last);
        if last == root_component() {
            assert(last.len() == 1 && last[0] == '/');
        }
        if last.len() == 1 && last[0] == '/' {
            assert(last =~= root_component());
        }
    }
    if last_is_root {
        return Vec::new();
    }
    let ghost before = cs@;
    cs.pop();
    proof {
        assert(views(cs@) =~= views(before).drop_last());
    }
    cs
}

/// Resolves a link target written in the document at `from`: an absolute
/// target is normalised as it is, a relative one is joined to the directory
/// that contains `from` and then normalised.
pub fn resolve_relative(from: &str, target: &str) -> (out: String)
    ensures
        out@ == resolved_relative(from@, target@),
{
    let target_chars = chars_of(target);
    if target_chars.len() > 0 && target_chars[0] == '/' {
        return normalize(target);
    }
    let mut joined = parent_of(from);
    let tail = components(target);
    let ghost head = joined@;
    let mut i: usize = 0;
    while i < tail.len()
        invariant
            i <= tail.len(),
            views(joined@) == views(head) + views(tail@).take(i as int),
        decreases tail.len() - i,
    {
        let ghost before = joined@;
        joined.push(tail[i].clone());
        proof {
            lemma_views_push(before, tail@[i as int]);
            assert(views(tail@).take(i + 1) == views(tail@).take(i as int).push(tail@[i as int]@));
        }
        i = i + 1;
    }
    assert(views(tail@).take(tail.len() as int) == views(tail@));
    let stack = normalize_all(&joined);
    let buf = push_all(&stack);
    string_from_chars(&buf)
}

/// The path of `target` relative to the directory containing `from`, as a
/// string.  Paths here are strings already, so the result is always `Some`.
pub fn relative_path(from: &str, target: &str) -> (out: Option<String>)
    ensures
        out matches Some(s) && s@ == relative_path_spec(from@, target@),
{
    let f = parent_of(from);
    let t = components(target);
    let mut common: usize = 0;
    while common < f.len() && common < t.len() && chars_equal(&f[common], &t[common])
        invariant
            common <= f.len(),
            common <= t.len(),
            common_prefix_from(views(f@), views(t@), 0) == common_prefix_from(
                views(f@),
                views(t@),
                common as int,
            ),
        decreases f.len() - common,
    {
        assert(views(f@)[common as int] == f@[common as int]@);
        assert(views(t@)[common as int] == t@[common as int]@);
        common = common + 1;
    }
    proof {
        if common < f.len() && common < t.len() {
            assert(views(f@)[common as int] == f@[common as int]@);
            assert(views(t@)[common as int] == t@[common as int]@);
        }
    }
    let mut relative: Vec<Vec<char>> = Vec::new();
    let mut k: usize = common;
    while k < f.len()
        invariant
            common <= k <= f.len(),
            views(relative@) == ups((k - common) as nat),
        decreases f.len() - k,
    {
        let ghost before = relative@;
        let up: Vec<char> = vec!['.', '.'];
        relative.push(up);
        proof {
            lemma_views_push(before, up);
            assert(up@ =~= parent_component());
            assert(views(relative@) =~= ups((k + 1 - common) as nat));
        }
        k = k + 1;
    }
    let ghost head = relative@;
    let mut j: usize = common;
    while j < t.len()
        invariant
            common <= j <= t.len(),
            views(relative@) == views(head) + views(t@).subrange(common as int, j as int),
        decreases t.len() - j,
    {
        let ghost before = relative@;
        relative.push(t[j].clone());
        proof {
            lemma_views_push(before, t@[j as int]);
            assert(views(t@).subrange(common as int, j + 1) == views(t@).subrange(
                common as int,
                j as int,
            ).push(t@[j as int]@));
        }
        j = j + 1;
    }
    assert(views(t@).subrange(common as int, t.len() as int) == views(t@).skip(common as int));
    let buf = push_all(&relative);
    Some(string_from_chars(&buf))
}

/// The last component of a path when it names a file or directory
/// (`Path::file_name`): not the root, `.` or `..`.
pub open spec fn file_name(s: Seq<char>) -> Option<Seq<char>> {
    let cs = path_components(s);
    if cs.len() > 0 && cs.last() != root_component() && cs.last() != current_component()
        && cs.last() != parent_component() {
        Some(cs.last())
    } else {
        None
    }
}

/// Whether `i` is the position of the last `.` in `name`.
pub open spec fn last_dot_at(name: Seq<char>, i: int) -> bool {
    0 <= i < name.len() && name[i] == '.' && forall|k: int| i < k < name.len() ==> name[k] != '.'
}

/// The extension of a file name (`Path::extension`): what follows its last
/// `.`, unless that `.` is the first character or there is none.
pub open spec fn name_extension(name: Seq<char>) -> Option<Seq<char>> {
    if exists|i: int| 0 < i && #[trigger] last_dot_at(name, i) {
        let i = choose|i: int| 0 < i && #[trigger] last_dot_at(name, i);
        Some(name.skip(i + 1))
    } else {
        None
    }
}

/// ASCII letters mapped to lower case, everything else kept.
pub open spec fn ascii_lower(c: char) -> char {
    if 'A' <= c && c <= 'Z' {
        ((c as u32) + 32) as char
    } else {
        c
    }
}

pub open spec fn ascii_lowercase(s: Seq<char>) -> Seq<char> {
    s.map_values(|c: char| ascii_lower(c))
}

/// The image extensions that embeds render inline.
pub open spec fn image_extension(e: Seq<char>) -> bool {
    ||| e == seq!['p', 'n', 'g']
    ||| e == seq!['j', 'p', 'g']
    ||| e == seq!['j', 'p', 'e', 'g']
    ||| e == seq!['w', 'e', 'b', 'p']
    ||| e == seq!['g', 'i', 'f']
    ||| e == seq!['s', 'v', 'g']
    ||| e == seq!['a', 'v', 'i', 'f']
}

/// Whether a path's extension, compared without ASCII case, names an image.
pub open spec fn is_image_path_spec(s: Seq<char>) -> bool {
    match file_name(s) {
        Some(name) => match name_extension(name) {
            Some(e) => image_extension(ascii_lowercase(e)),
            None => false,
        },
        None => false,
    }
}

fn ascii_lowercase_vec(s: &Vec<char>) -> (out: Vec<char>)
    ensures
        out@ == ascii_lowercase(s@),
{
    let mut out: Vec<char> = Vec::new();
    let mut i: usize = 0;
    while i < s.len()
        invariant
            i <= s.len(),
            out@ == ascii_lowercase(s@.take(i as int)),
        decreases s.len() - i,
    {
        let c = s[i];
        let lower = if 'A' <= c && c <= 'Z' {
            ((c as u8) + 32) as char
        } else {
            c
        };
        out.push(lower);
        assert(ascii_lowercase(s@.take(i + 1)) =~= ascii_lowercase(s@.take(i as int)).push(
            ascii_lower(c),
        ));
        i = i + 1;
    }
    assert(s@.take(s.len() as int) == s@);
    out
}

fn equals_literal(a: &Vec<char>, b: Vec<char>) -> (eq: bool)
    ensures
        eq == (a@ == b@),
{
    chars_equal(a, &b)
}

/// The extension of a path (`Path::extension`).
pub fn extension_of(path: &str) -> (ext: Option<Vec<char>>)
    ensures
        match file_name(path@) {
            Some(name) => match name_extension(name) {
                Some(e) => ext matches Some(v) && v@ == e,
                None => ext is None,
            },
            None => ext is None,
        },
{
    let cs = components(path);
    let n = cs.len();
    if n == 0 {
        return None;
    }
    let name = &cs[n - 1];
    assert(views(cs@).last() == name@);
    let special = (name.len() == 1 && (name[0] == '/' || name[0] == '.')) || (name.len() == 2
        && name[0] == '.' && name[1] == '.');
    proof {
        if name@ == root_component() || name@ == current_component() || name@
            == parent_component() {
            assert(special);
        }
        if special {
            if name.len() == 1 && name[0] == '/' {
                assert(name@ =~= root_component());
            } else if name.len() == 1 {
                assert(name@ =~= current_component());
            } else {
                assert(name@ =~= parent_component());
            }
        }
    }
    if special {
        return None;
    }
    let mut i: usize = name.len();
    while i > 0 && name[i - 1] != '.'
        invariant
            i <= name.len(),
            forall|k: int| i <= k < name.len() ==> name@[k] != '.',
        decreases i,
    {
        i = i - 1;
    }
    if i <= 1 {
        proof {
            assert forall|d: int| 0 < d implies !#[trigger] last_dot_at(name@, d) by {
                if last_dot_at(name@, d) {
                    if i == 1 {
                        assert(name@[0] == '.');
                    }
                }
            }
        }
        return None;
    }
    let dot = i - 1;
    proof {
        assert(last_dot_at(name@, dot as int));
        let d = choose|d: int| 0 < d && #[trigger] last_dot_at(name@, d);
        if d < dot {
            assert(name@[dot as int] == '.');
        } else if d > dot {
            assert(name@[d] == '.');
        }
    }
    let mut ext: Vec<char> = Vec::new();
    let mut j: usize = i;
    while j < name.len()
        invariant
            i <= j <= name.len(),
            ext@ == name@.subrange(i as int, j as int),
        decreases name.len() - j,
    {
        ext.push(name[j]);
        assert(name@.subrange(i as int, j + 1) == name@.subrange(i as int, j as int).push(name@[j as int]));
        j = j + 1;
    }
    assert(ext@ == name@.skip(i as int));
    Some(ext)
}

/// Whether a path names an image file by its extension.
pub fn is_image_path(path: &str) -> (b: bool)
    ensures
        b == is_image_path_spec(path@),
{
    let ext = match extension_of(path) {
        Some(ext) => ext,
        None => {
            return false;
        },
    };
    let lower = ascii_lowercase_vec(&ext);
    equals_literal(&lower, vec!['p', 'n', 'g']) || equals_literal(&lower, vec!['j', 'p', 'g'])
        || equals_literal(&lower, vec!['j', 'p', 'e', 'g']) || equals_literal(
        &lower,
        vec!['w', 'e', 'b', 'p'],
    ) || equals_literal(&lower, vec!['g', 'i', 'f']) || equals_literal(&lower, vec!['s', 'v', 'g'])
        || equals_literal(&lower, vec!['a', 'v', 'i', 'f'])
}

/// `path` shown relative to `root`: the components after `root`'s when
/// those are a prefix of `path`'s (`Path::strip_prefix`), else `path` as it
/// is.
pub open spec fn display_relative(root: Seq<char>, path: Seq<char>) -> Seq<char> {
    let r = path_components(root);
    let p = path_components(path);
    if r.len() <= p.len() && p.take(r.len() as int) == r {
        pushed(p.skip(r.len() as int))
    } else {
        path
    }
}

/// How a workspace path is displayed: relative to the workspace root when it
/// lies inside it, otherwise in full.
pub fn display_workspace_path(root: &str, path: &str) -> (shown: String)
    ensures
        shown@ == display_relative(root@, path@),
{
    let r = components(root);
    let p = components(path);
    let mut prefix = r.len() <= p.len();
    let mut i: usize = 0;
    while prefix && i < r.len()
        invariant
            i <= r.len(),
            prefix ==> r.len() <= p.len(),
            prefix ==> forall|k: int| 0 <= k < i ==> views(r@)[k] == views(p@)[k],
            !prefix ==> !(r.len() <= p.len() && views(p@).take(r.len() as int) == views(r@)),
        decreases r.len() - i + (if prefix {
            1int
        } else {
            0int
        }),
    {
        if !chars_equal(&r[i], &p[i]) {
            proof {
                assert(views(r@)[i as int] == r@[i as int]@);
                assert(views(p@)[i as int] == p@[i as int]@);
                assert(views(p@).take(r.len() as int)[i as int] != views(r@)[i as int]);
            }
            prefix = false;
        } else {
            proof {
                assert(views(r@)[i as int] == r@[i as int]@);
                assert(views(p@)[i as int] == p@[i as int]@);
            }
            i = i + 1;
        }
    }
    if !prefix {
        let chars = chars_of(path);
        return string_from_chars(&chars);
    }
    assert(views(p@).take(r.len() as int) =~= views(r@));
    let mut rest: Vec<Vec<char>> = Vec::new();
    let mut j: usize = r.len();
    while j < p.len()
        invariant
            r.len() <= j <= p.len(),
            views(rest@) == views(p@).subrange(r.len() as int, j as int),
        decreases p.len() - j,
    {
        let ghost before = rest@;
        rest.push(p[j].clone());
        proof {
            lemma_views_push(before, p@[j as int]);
            assert(views(p@).subrange(r.len() as int, j + 1) == views(p@).subrange(
                r.len() as int,
                j as int,
            ).push(p@[j as int]@));
        }
        j = j + 1;
    }
    assert(views(p@).subrange(r.len() as int, p.len() as int) == views(p@).skip(r.len() as int));
    let buf = push_all(&rest);
    string_from_chars(&buf)
}

/// The key of one component: the root, `.` and `..` in that order before
/// every named component, and named components by their characters.
pub open spec fn component_key(c: Seq<char>) -> Seq<i128> {
    if c == root_component() {
        seq![1]
    } else if c == current_component() {
        seq![2]
    } else if c == parent_component() {
        seq![3]
    } else {
        seq![4i128] + str_key(c)
    }
}

/// The keys of the components, one after the other.
pub open spec fn components_key(cs: Seq<Seq<char>>) -> Seq<i128>
    decreases cs.len(),
{
    if cs.len() == 0 {
        seq![]
    } else {
        components_key(cs.drop_last()) + component_key(cs.last())
    }
}

/// The sort key of a path: paths are ordered component by component (as
/// `Path` orders them), a path before any longer path it is a prefix of.
pub open spec fn path_key(s: Seq<char>) -> Seq<i128> {
    components_key(path_components(s)) + seq![0i128]
}

/// Appends the key of a path to `key`.
pub fn push_path_key(key: &mut Vec<i128>, path: &str)
    ensures
        final(key)@ == old(key)@ + path_key(path@),
{
    let cs = components(path);
    let ghost start = key@;
    let mut i: usize = 0;
    while i < cs.len()
        invariant
            i <= cs.len(),
            key@ == start + components_key(views(cs@).take(i as int)),
        decreases cs.len() - i,
    {
        let c = &cs[i];
        let ghost before = key@;
        proof {
            assert(views(cs@).take(i + 1).drop_last() == views(cs@).take(i as int));
            assert(views(cs@).take(i + 1).last() == c@);
        }
        if c.len() == 1 && c[0] == '/' {
            proof {
                assert(c@ =~= root_component());
            }
            key.push(1);
        } else if is_component(c, 1) {
            proof {
                assert(c@ != root_component());
            }
            key.push(2);
        } else if is_component(c, 2) {
            proof {
                assert(c@ != root_component());
                assert(c@ != current_component());
            }
            key.push(3);
        } else {
            proof {
                if c@ == root_component() {
                    assert(c.len() == 1 && c[0] == '/');
                }
            }
            key.push(4);
            push_str_key(key, c);
        }
        proof {
            assert(key@ =~= before + component_key(c@));
            assert(start + components_key(views(cs@).take(i + 1)) =~= start + components_key(
                views(cs@).take(i as int),
            ) + component_key(c@));
        }
        i = i + 1;
    }
    key.push(0);
    assert(views(cs@).take(cs.len() as int) == views(cs@));
    assert(key@ =~= start + path_key(path@));
}

/// The shape of normalised components: no `.`, the root only first, and
/// `..` only first or right after the root (never after a named
/// component).
pub open spec fn normal_shape(cs: Seq<Seq<char>>) -> bool {
    forall|i: int|
        0 <= i < cs.len() ==> {
            &&& #[trigger] cs[i] != current_component()
            &&& cs[i] == root_component() ==> i == 0
            &&& cs[i] == parent_component() ==> (i == 0 || (i == 1 && cs[0] == root_component()))
        }
}

proof fn lemma_normalize_shape(cs: Seq<Seq<char>>)
    ensures
        normal_shape(normalize_components(cs)),
    decreases cs.len(),
{
    if cs.len() > 0 {
        lemma_normalize_shape(cs.drop_last());
        let stack = normalize_components(cs.drop_last());
        let c = cs.last();
        let out = normalize_components(cs);
        assert(out == normalize_step(stack, c));
        if c == parent_component() && stack.len() > 0 && stack.last() != root_component() {
            assert forall|i: int| 0 <= i < out.len() implies {
                &&& #[trigger] out[i] != current_component()
                &&& out[i] == root_component() ==> i == 0
                &&& out[i] == parent_component() ==> (i == 0 || (i == 1 && out[0] == root_component()))
            } by {
                assert(out[i] == stack[i]);
            }
        } else if c == parent_component() {
            assert forall|i: int| 0 <= i < out.len() implies {
                &&& #[trigger] out[i] != current_component()
                &&& out[i] == root_component() ==> i == 0
                &&& out[i] == parent_component() ==> (i == 0 || (i == 1 && out[0] == root_component()))
            } by {
                if i < stack.len() {
                    assert(out[i] == stack[i]);
                } else {
                    assert(out[i] == c);
                    if stack.len() > 0 {
                        assert(stack.last() == root_component());
                        assert(stack.len() == 1);
                        assert(out[0] == stack[0]);
                    }
                }
            }
        } else if c != current_component() && c != root_component() {
            assert forall|i: int| 0 <= i < out.len() implies {
                &&& #[trigger] out[i] != current_component()
                &&& out[i] == root_component() ==> i == 0
                &&& out[i] == parent_component() ==> (i == 0 || (i == 1 && out[0] == root_component()))
            } by {
                if i < stack.len() {
                    assert(out[i] == stack[i]);
                    assert(out[0] == stack[0]);
                }
            }
        }
    }
}

proof fn lemma_normal_shape_fixed(cs: Seq<Seq<char>>)
    requires
        normal_shape(cs),
    ensures
        normalize_components(cs) == cs,
    decreases cs.len(),
{
    if cs.len() > 0 {
        let prev = cs.drop_last();
        assert forall|i: int| 0 <= i < prev.len() implies {
            &&& #[trigger] prev[i] != current_component()
            &&& prev[i] == root_component() ==> i == 0
            &&& prev[i] == parent_component() ==> (i == 0 || (i == 1 && prev[0] == root_component()))
        } by {
            assert(prev[i] == cs[i]);
            assert(prev.len() > 0 ==> prev[0] == cs[0]);
        }
        lemma_normal_shape_fixed(prev);
        let n = cs.len() - 1;
        let c = cs[n];
        assert(c != current_component());
        if c == parent_component() {
            if n == 1 {
                assert(prev.last() == root_component());
            }
            assert(prev.push(c) == cs);
        } else if c == root_component() {
            assert(n == 0);
            assert(cs == seq![c]);
        } else {
            assert(prev.push(c) == cs);
        }
    }
}

/// Normalising components twice is normalising them once; normalised
/// components hold no `.`, the root only first, and `..` only first or
/// right after the root; and components of that shape (in particular
/// those with no `.` or `..` and the root only first) are left as they
/// are.
pub proof fn lemma_normalize_components_idempotent(cs: Seq<Seq<char>>)
    ensures
        normalize_components(normalize_components(cs)) == normalize_components(cs),
        normal_shape(normalize_components(cs)),
        normal_shape(cs) ==> normalize_components(cs) == cs,
{
    if normal_shape(cs) {
        lemma_normal_shape_fixed(cs);
    }
    lemma_normalize_shape(cs);
    lemma_normal_shape_fixed(normalize_components(cs));
}

// ---------------------------------------------------------------------------
// Normalising a path's text twice.

/// A text with no separator.
pub open spec fn slash_free(x: Seq<char>) -> bool {
    forall|i: int| 0 <= i < x.len() ==> x[i] != '/'
}

/// Pieces joined with `/` between them.
pub open spec fn joined(xs: Seq<Seq<char>>) -> Seq<char>
    decreases xs.len(),
{
    if xs.len() == 0 {
        seq![]
    } else if xs.len() == 1 {
        xs[0]
    } else {
        joined(xs.drop_last()) + seq!['/'] + xs.last()
    }
}

/// Components as `pushed` writes them back: the root only first, every
/// other one a nonempty piece without separator that is not `.`.
pub open spec fn plain_components(cs: Seq<Seq<char>>) -> bool {
    forall|i: int|
        0 <= i < cs.len() ==> ((#[trigger] cs[i] == root_component() && i == 0) || (cs[i].len() > 0 && slash_free(cs[i])
            && cs[i] != current_component()))
}

proof fn lemma_split_plain(x: Seq<char>)
    requires
        slash_free(x),
    ensures
        split_on_slash(x) == seq![x],
    decreases x.len(),
{
    if x.len() > 0 {
        lemma_split_plain(x.drop_last());
        assert(x.drop_last().push(x.last()) == x);
    } else {
        assert(x =~= Seq::<char>::empty());
    }
}

proof fn lemma_split_append(a: Seq<char>, b: Seq<char>)
    requires
        slash_free(b),
    ensures
        split_on_slash(a + seq!['/'] + b) == split_on_slash(a).push(b),
    decreases b.len(),
{
    let c = a + seq!['/'] + b;
    if b.len() == 0 {
        assert(c.drop_last() == a);
        assert(c.last() == '/');
        assert(b =~= Seq::<char>::empty());
    } else {
        lemma_split_append(a, b.drop_last());
        assert(c.drop_last() == a + seq!['/'] + b.drop_last());
        assert(c.last() == b.last());
        let prev = split_on_slash(a).push(b.drop_last());
        assert(prev.update(prev.len() - 1, prev.last().push(b.last())) =~= split_on_slash(a).push(b)) by {
            assert(b.drop_last().push(b.last()) == b);
        }
    }
}

proof fn lemma_split_joined(xs: Seq<Seq<char>>)
    requires
        xs.len() > 0,
        forall|i: int| 0 <= i < xs.len() ==> slash_free(#[trigger] xs[i]),
    ensures
        split_on_slash(joined(xs)) == xs,
    decreases xs.len(),
{
    if xs.len() == 1 {
        lemma_split_plain(xs[0]);
        assert(seq![xs[0]] =~= xs);
    } else {
        let d = xs.drop_last();
        assert forall|i: int| 0 <= i < d.len() implies slash_free(#[trigger] d[i]) by {
            assert(d[i] == xs[i]);
        }
        lemma_split_joined(d);
        assert(slash_free(xs[xs.len() - 1]));
        lemma_split_append(joined(d), xs.last());
        assert(d.push(xs.last()) == xs);
    }
}

proof fn lemma_joined_front(xs: Seq<Seq<char>>)
    requires
        xs.len() >= 2,
    ensures
        joined(xs) == xs[0] + seq!['/'] + joined(xs.skip(1)),
    decreases xs.len(),
{
    if xs.len() == 2 {
        assert(xs.drop_last().len() == 1);
        assert(xs.drop_last()[0] == xs[0]);
        assert(xs.skip(1).len() == 1);
        assert(xs.skip(1)[0] == xs[1]);
        assert(joined(xs.skip(1)) == xs[1]);
        assert(joined(xs.drop_last()) == xs[0]);
        assert(xs.last() == xs[1]);
    } else {
        let d = xs.drop_last();
        lemma_joined_front(d);
        assert(d.skip(1) == xs.skip(1).drop_last());
        assert(xs.skip(1).last() == xs.last());
        assert(d[0] == xs[0]);
        let j = joined(d.skip(1));
        assert(joined(xs.skip(1)) == j + seq!['/'] + xs.last());
        assert(joined(xs) == (xs[0] + seq!['/'] + j) + seq!['/'] + xs.last());
        assert((xs[0] + seq!['/'] + j) + seq!['/'] + xs.last() =~= xs[0] + seq!['/'] + (j + seq!['/'] + xs.last()));
    }
}

proof fn lemma_joined_last(xs: Seq<Seq<char>>)
    requires
        xs.len() > 0,
        xs.last().len() > 0,
    ensures
        joined(xs).len() > 0,
        joined(xs).last() == xs.last().last(),
{
}

proof fn lemma_kept_all(xs: Seq<Seq<char>>)
    requires
        forall|i: int| 0 <= i < xs.len() ==> (#[trigger] xs[i]).len() > 0 && xs[i] != current_component(),
    ensures
        kept_segments(xs) == xs,
    decreases xs.len(),
{
    if xs.len() > 0 {
        let d = xs.drop_last();
        assert forall|i: int| 0 <= i < d.len() implies (#[trigger] d[i]).len() > 0 && d[i] != current_component() by {
            assert(d[i] == xs[i]);
        }
        lemma_kept_all(d);
        assert(xs[xs.len() - 1].len() > 0);
        assert(d.push(xs.last()) == xs);
    }
}

proof fn lemma_kept_leading_empty(rest: Seq<Seq<char>>)
    ensures
        kept_segments(seq![Seq::<char>::empty()] + rest) == kept_segments(rest),
    decreases rest.len(),
{
    let e: Seq<Seq<char>> = seq![Seq::<char>::empty()];
    if rest.len() == 0 {
        assert(e + rest == e);
        assert(e.drop_last() =~= Seq::<Seq<char>>::empty());
        assert(e.last() == Seq::<char>::empty());
        assert(kept_segments(e) == kept_segments(Seq::<Seq<char>>::empty()));
    } else {
        lemma_kept_leading_empty(rest.drop_last());
        assert((e + rest).drop_last() == e + rest.drop_last());
        assert((e + rest).last() == rest.last());
    }
}

proof fn lemma_pushed_joined(cs: Seq<Seq<char>>)
    requires
        plain_components(cs),
    ensures
        cs.len() > 0 && cs[0] == root_component() ==> pushed(cs) == (if cs.len() == 1 {
            seq!['/']
        } else {
            joined(seq![Seq::<char>::empty()] + cs.skip(1))
        }),
        !(cs.len() > 0 && cs[0] == root_component()) ==> pushed(cs) == joined(cs),
    decreases cs.len(),
{
    let n = cs.len();
    if n > 0 {
        let d = cs.drop_last();
        let c = cs.last();
        assert forall|i: int| 0 <= i < d.len() implies ((#[trigger] d[i] == root_component() && i == 0) || (d[i].len() > 0
            && slash_free(d[i]) && d[i] != current_component())) by {
            assert(d[i] == cs[i]);
        }
        lemma_pushed_joined(d);
        if n >= 2 {
            assert(c == cs[n - 1]);
            assert(c.len() > 0 && slash_free(c));
            assert(c[0] != '/');
        }
        if cs[0] == root_component() {
            if n == 1 {
                assert(c == root_component());
            } else if n == 2 {
                assert(d =~= seq![root_component()]);
                assert(seq![Seq::<char>::empty()] + cs.skip(1) =~= seq![Seq::<char>::empty(), c]);
                assert(joined(seq![Seq::<char>::empty(), c]) == joined(seq![Seq::<char>::empty()]) + seq!['/'] + c) by {
                    assert(seq![Seq::<char>::empty(), c].drop_last() =~= seq![Seq::<char>::empty()]);
                }
                assert(seq!['/'] + c =~= Seq::<char>::empty() + seq!['/'] + c);
            } else {
                let ys = seq![Seq::<char>::empty()] + d.skip(1);
                assert(d[0] == cs[0]);
                assert(ys.last() == d.last());
                assert(d.last() == cs[n - 2]);
                assert(cs[n - 2].len() > 0 && slash_free(cs[n - 2]));
                lemma_joined_last(ys);
                assert(pushed(d).last() != '/');
                assert((seq![Seq::<char>::empty()] + cs.skip(1)).drop_last() == ys);
                assert((seq![Seq::<char>::empty()] + cs.skip(1)).last() == c);
            }
        } else {
            if n >= 2 {
                assert(d[0] == cs[0]);
                assert(d.last() == cs[n - 2]);
                assert(cs[n - 2].len() > 0 && slash_free(cs[n - 2]));
                lemma_joined_last(d);
            } else {
                assert(c.len() > 0 && slash_free(c));
                assert(c[0] != '/');
            }
        }
    }
}

proof fn lemma_components_of_pushed(cs: Seq<Seq<char>>)
    requires
        plain_components(cs),
    ensures
        path_components(pushed(cs)) == cs,
{
    lemma_pushed_joined(cs);
    let s = pushed(cs);
    let n = cs.len();
    if n == 0 {
        assert(s.len() == 0);
        assert(split_on_slash(s) == seq![Seq::<char>::empty()]);
        lemma_kept_leading_empty(Seq::<Seq<char>>::empty());
        assert(seq![Seq::<char>::empty()] + Seq::<Seq<char>>::empty() == seq![Seq::<char>::empty()]);
        assert(path_components(s) =~= cs);
    } else if cs[0] == root_component() {
        let rest = cs.skip(1);
        assert forall|i: int| 0 <= i < rest.len() implies (#[trigger] rest[i]).len() > 0 && rest[i] != current_component() && slash_free(rest[i]) by {
            assert(rest[i] == cs[i + 1]);
        }
        if n == 1 {
            assert(s == Seq::<char>::empty().push('/'));
            lemma_split_append(Seq::<char>::empty(), Seq::<char>::empty());
            assert(Seq::<char>::empty() + seq!['/'] + Seq::<char>::empty() == s);
            assert(split_on_slash(Seq::<char>::empty()) == seq![Seq::<char>::empty()]);
            let e: Seq<Seq<char>> = seq![Seq::<char>::empty()];
            assert(split_on_slash(s) =~= e + e);
            lemma_kept_leading_empty(e);
            lemma_kept_leading_empty(Seq::<Seq<char>>::empty());
            assert(e + Seq::<Seq<char>>::empty() == e);
            assert(rest.len() == 0);
        } else {
            let ys = seq![Seq::<char>::empty()] + rest;
            assert forall|i: int| 0 <= i < ys.len() implies slash_free(#[trigger] ys[i]) by {
                if i > 0 {
                    assert(ys[i] == rest[i - 1]);
                }
            }
            lemma_split_joined(ys);
            lemma_joined_front(ys);
            assert(ys[0] == Seq::<char>::empty());
            assert(s[0] == '/');
            lemma_kept_leading_empty(rest);
            lemma_kept_all(rest);
        }
        assert(has_root(s));
        assert(path_components(s) =~= seq![root_component()] + rest);
        assert(seq![root_component()] + rest =~= cs);
    } else {
        assert forall|i: int| 0 <= i < cs.len() implies (#[trigger] cs[i]).len() > 0 && cs[i] != current_component() && slash_free(cs[i]) by {
            assert(cs[i] == cs[i]);
        }
        lemma_split_joined(cs);
        lemma_kept_all(cs);
        let first = cs[0];
        assert(first.len() > 0 && slash_free(first) && first != current_component());
        if n == 1 {
            assert(s == first);
        } else {
            lemma_joined_front(cs);
            assert(s[0] == first[0]);
            if first.len() == 1 {
                assert(s[1] == '/');
            } else {
                assert(s[1] == first[1]);
            }
        }
        assert(s[0] == first[0]);
        assert(first[0] != '/');
        assert(!has_root(s));
        if s[0] == '.' && (s.len() == 1 || s[1] == '/') {
            if first.len() == 1 {
                assert(first =~= current_component());
            } else {
                assert(s[1] == first[1]);
            }
        }
        assert(!starts_with_current(s));
        assert(path_components(s) =~= kept_segments(split_on_slash(s)));
    }
}

proof fn lemma_split_pieces_plain(s: Seq<char>)
    ensures
        forall|i: int| 0 <= i < split_on_slash(s).len() ==> slash_free(#[trigger] split_on_slash(s)[i]),
        split_on_slash(s).len() > 0,
    decreases s.len(),
{
    if s.len() > 0 {
        lemma_split_pieces_plain(s.drop_last());
        let prev = split_on_slash(s.drop_last());
        if s.last() != '/' {
            assert forall|i: int| 0 <= i < split_on_slash(s).len() implies slash_free(#[trigger] split_on_slash(s)[i]) by {
                if i == prev.len() - 1 {
                    assert(split_on_slash(s)[i] == prev.last().push(s.last()));
                    assert(slash_free(prev[prev.len() - 1]));
                } else {
                    assert(split_on_slash(s)[i] == prev[i]);
                }
            }
        } else {
            assert forall|i: int| 0 <= i < split_on_slash(s).len() implies slash_free(#[trigger] split_on_slash(s)[i]) by {
                if i < prev.len() {
                    assert(split_on_slash(s)[i] == prev[i]);
                }
            }
        }
    }
}

proof fn lemma_kept_pieces(segs: Seq<Seq<char>>)
    requires
        forall|i: int| 0 <= i < segs.len() ==> slash_free(#[trigger] segs[i]),
    ensures
        forall|i: int|
            0 <= i < kept_segments(segs).len() ==> (#[trigger] kept_segments(segs)[i]).len() > 0 && slash_free(kept_segments(segs)[i])
                && kept_segments(segs)[i] != current_component(),
    decreases segs.len(),
{
    if segs.len() > 0 {
        let d = segs.drop_last();
        assert forall|i: int| 0 <= i < d.len() implies slash_free(#[trigger] d[i]) by {
            assert(d[i] == segs[i]);
        }
        lemma_kept_pieces(d);
        assert(slash_free(segs[segs.len() - 1]));
        let k = kept_segments(segs);
        let kd = kept_segments(d);
        assert forall|i: int| 0 <= i < k.len() implies (#[trigger] k[i]).len() > 0 && slash_free(k[i]) && k[i] != current_component() by {
            if i < kd.len() {
                assert(k[i] == kd[i]);
            } else {
                assert(k[i] == segs.last());
            }
        }
    }
}

/// Every component normalising leaves is one it was given.
proof fn lemma_normalize_from(cs: Seq<Seq<char>>)
    ensures
        forall|i: int| 0 <= i < normalize_components(cs).len() ==> cs.contains(#[trigger] normalize_components(cs)[i]),
    decreases cs.len(),
{
    if cs.len() > 0 {
        let d = cs.drop_last();
        lemma_normalize_from(d);
        let st = normalize_components(d);
        let out = normalize_components(cs);
        assert forall|i: int| 0 <= i < out.len() implies cs.contains(#[trigger] out[i]) by {
            if i < st.len() && out[i] == st[i] {
                let k = choose|k: int| 0 <= k < d.len() && d[k] == st[i];
                assert(cs[k] == d[k]);
            } else {
                assert(out[i] == cs.last());
                assert(cs[cs.len() - 1] == cs.last());
            }
        }
    }
}

/// The components of a path: the root only first, `.` only first, every
/// other one a nonempty piece without separator.
proof fn lemma_components_shape(p: Seq<char>)
    ensures
        forall|i: int|
            0 <= i < path_components(p).len() ==> (#[trigger] path_components(p)[i] == root_component() ==> i == 0 && has_root(p))
                && (path_components(p)[i] == current_component() ==> i == 0)
                && (path_components(p)[i] != root_component() && path_components(p)[i] != current_component() ==> path_components(p)[i].len()
                > 0 && slash_free(path_components(p)[i])),
        (path_components(p).len() > 0 && path_components(p)[0] == root_component()) == has_root(p),
{
    lemma_split_pieces_plain(p);
    lemma_kept_pieces(split_on_slash(p));
    let pc = path_components(p);
    let head: Seq<Seq<char>> = if has_root(p) {
        seq![root_component()]
    } else if starts_with_current(p) {
        seq![current_component()]
    } else {
        seq![]
    };
    let kept = kept_segments(split_on_slash(p));
    assert(pc == head + kept);
    assert forall|i: int| 0 <= i < pc.len() implies (#[trigger] pc[i] == root_component() ==> i == 0 && has_root(p)) && (pc[i]
        == current_component() ==> i == 0) && (pc[i] != root_component() && pc[i] != current_component() ==> pc[i].len() > 0
        && slash_free(pc[i])) by {
        assert(root_component()[0] != current_component()[0]);
        if i >= head.len() {
            let x = kept[i - head.len()];
            assert(pc[i] == x);
            assert(x.len() > 0 && slash_free(x) && x != current_component());
            if x == root_component() {
                assert(x[0] == '/');
            }
        } else {
            assert(pc[i] == head[i]);
        }
    }
    if has_root(p) {
        assert(pc[0] == root_component());
    } else if pc.len() > 0 && pc[0] == root_component() {
        assert(pc[0] == root_component());
    }
}

/// The normalised components are as `pushed` writes them back.
proof fn lemma_normalized_plain(p: Seq<char>)
    ensures
        plain_components(normalize_components(path_components(p))),
        normal_shape(normalize_components(path_components(p))),
        path_components(normalized(p)) == normalize_components(path_components(p)),
{
    let pc = path_components(p);
    let cs = normalize_components(pc);
    lemma_normalize_components_idempotent(pc);
    lemma_components_shape(p);
    lemma_normalize_from(pc);
    assert forall|i: int| 0 <= i < cs.len() implies ((#[trigger] cs[i] == root_component() && i == 0) || (cs[i].len() > 0
        && slash_free(cs[i]) && cs[i] != current_component())) by {
        assert(pc.contains(cs[i]));
        let k = choose|k: int| 0 <= k < pc.len() && pc[k] == cs[i];
        assert(cs[i] != current_component());
        if cs[i] == root_component() {
            assert(i == 0);
        } else if cs[i] == parent_component() {
            assert(cs[i].len() > 0);
            assert(slash_free(cs[i]));
        } else {
            assert(pc[k] != root_component() && pc[k] != current_component());
        }
    }
    lemma_components_of_pushed(cs);
}

/// Normalising a path's text twice gives what normalising it once does.
pub proof fn lemma_normalize_text_idempotent(p: Seq<char>)
    ensures
        normalized(normalized(p)) == normalized(p),
{
    lemma_normalized_plain(p);
    lemma_normal_shape_fixed(normalize_components(path_components(p)));
}

proof fn lemma_root_stays_first(cs: Seq<Seq<char>>)
    requires
        cs.len() > 0,
        cs[0] == root_component(),
        forall|i: int| 0 < i < cs.len() ==> #[trigger] cs[i] != root_component(),
    ensures
        normalize_components(cs).len() > 0,
        normalize_components(cs)[0] == root_component(),
    decreases cs.len(),
{
    assert(root_component()[0] != current_component()[0]);
    assert(root_component().len() != parent_component().len());
    if cs.len() > 1 {
        let d = cs.drop_last();
        assert forall|i: int| 0 < i < d.len() implies #[trigger] d[i] != root_component() by {
            assert(d[i] == cs[i]);
        }
        lemma_root_stays_first(d);
        assert(cs.last() == cs[cs.len() - 1]);
        let st = normalize_components(d);
        if cs.last() == parent_component() && st.len() > 0 && st.last() != root_component() {
            assert(st.len() > 1);
            assert(st.drop_last()[0] == st[0]);
        }
    } else {
        assert(cs.drop_last().len() == 0);
        assert(cs.last() == root_component());
        assert(normalize_components(cs) == normalize_step(Seq::<Seq<char>>::empty(), root_component()));
    }
}

/// Normalising keeps whether a path is absolute; its result has no `.`
/// component, the root only first and `..` only first or right after the
/// root (so never after a named component); and a path with no `.` or `..`
/// component keeps its components (equal as paths).
pub proof fn lemma_normalize_laws(p: Seq<char>)
    ensures
        has_root(normalized(p)) == has_root(p),
        normal_shape(path_components(normalized(p))),
        (forall|i: int|
            0 <= i < path_components(p).len() ==> #[trigger] path_components(p)[i] != current_component() && path_components(p)[i]
                != parent_component()) ==> path_components(normalized(p)) == path_components(p),
{
    let pc = path_components(p);
    let cs = normalize_components(pc);
    lemma_normalized_plain(p);
    lemma_components_shape(p);
    lemma_components_shape(normalized(p));
    lemma_normalize_from(pc);
    if has_root(p) {
        assert forall|i: int| 0 < i < pc.len() implies #[trigger] pc[i] != root_component() by {}
        lemma_root_stays_first(pc);
    } else {
        if cs.len() > 0 && cs[0] == root_component() {
            assert(pc.contains(cs[0]));
            let k = choose|k: int| 0 <= k < pc.len() && pc[k] == cs[0];
            assert(pc[k] == root_component());
        }
    }
    if forall|i: int| 0 <= i < pc.len() ==> #[trigger] pc[i] != current_component() && pc[i] != parent_component() {
        assert forall|i: int| 0 <= i < pc.len() implies {
            &&& #[trigger] pc[i] != current_component()
            &&& pc[i] == root_component() ==> i == 0
            &&& pc[i] == parent_component() ==> (i == 0 || (i == 1 && pc[0] == root_component()))
        } by {}
        lemma_normal_shape_fixed(pc);
    }
}

} // verus!
