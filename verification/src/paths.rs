//! Paths as text, with `/` between their components.

use vstd::prelude::*;
use vstd::string::*;

use crate::text::{
    chars_of, cut, find_from, lemma_cut, lemma_cut_after, lemma_cut_none, opt_view, same,
    same_texts, split, split_at_each, starts_with_texts, views,
};

verus! {

/// `name` under `dir`; an absolute `name` stands for itself.
pub open spec fn joined_path(dir: Seq<char>, name: Seq<char>) -> Seq<char> {
    if name.len() > 0 && name[0] == '/' {
        name
    } else if dir.len() == 0 || dir.last() == '/' {
        dir + name
    } else {
        dir.push('/') + name
    }
}

/// Where the last component of `path` starts: behind its last `/`.
pub open spec fn last_start(path: Seq<char>) -> int
    decreases path.len(),
{
    if path.len() == 0 || path.last() == '/' {
        path.len() as int
    } else {
        last_start(path.drop_last())
    }
}

/// Whether what `path` ends in adds nothing to it: a `/`, or a `.` behind
/// one.
pub open spec fn ends_idly(path: Seq<char>) -> bool {
    path.len() > 0 && (path.last() == '/' || (path.len() > 1 && path.last() == '.'
        && path[path.len() - 2] == '/'))
}

/// `path` without the `/`s and `/.`s at its end.
pub open spec fn trimmed(path: Seq<char>) -> Seq<char>
    decreases path.len(),
{
    if ends_idly(path) {
        trimmed(path.drop_last())
    } else {
        path
    }
}

/// The last component of `path`, if that names a file.
pub open spec fn file_name(path: Seq<char>) -> Option<Seq<char>> {
    let name = trimmed(path).skip(last_start(trimmed(path)));
    if name.len() == 0 || name == "."@ || name == ".."@ {
        None
    } else {
        Some(name)
    }
}

/// `path` with `name` in place of its file name; `name` under `path` if it has
/// none.
pub open spec fn beside(path: Seq<char>, name: Seq<char>) -> Seq<char> {
    match (file_name(path), directory(path)) {
        (Some(_), Some(dir)) => joined_path(dir, name),
        _ => joined_path(path, name),
    }
}

/// The directory that `path` lies in, if `path` has a component: without the
/// `/`s at its end, unless it is the root.
pub open spec fn directory(path: Seq<char>) -> Option<Seq<char>> {
    let head = trimmed(path).take(last_start(trimmed(path)));
    if trimmed(path).len() == 0 {
        None
    } else if trimmed(head).len() == 0 && head.len() > 0 {
        Some("/"@)
    } else {
        Some(trimmed(head))
    }
}

/// A directory is a shorter path than what lies in it.
pub proof fn lemma_directory_is_shorter(path: Seq<char>)
    ensures
        directory(path) matches Some(dir) ==> dir.len() < path.len(),
{
    lemma_trimmed(path);
    let whole = trimmed(path);
    lemma_last_start(whole);
    let head = whole.take(last_start(whole));
    lemma_trimmed(head);
    reveal_strlit("/");
}

proof fn lemma_trimmed(path: Seq<char>)
    ensures
        trimmed(path).len() <= path.len(),
        trimmed(path).len() > 0 ==> trimmed(path).last() != '/',
    decreases path.len(),
{
    if ends_idly(path) {
        lemma_trimmed(path.drop_last());
    }
}

proof fn lemma_last_start(path: Seq<char>)
    ensures
        0 <= last_start(path) <= path.len(),
        path.len() > 0 && path.last() != '/' ==> last_start(path) < path.len(),
    decreases path.len(),
{
    if path.len() > 0 && path.last() != '/' {
        lemma_last_start(path.drop_last());
    }
}

fn trim(path: &str) -> (out: &str)
    ensures
        out@ == trimmed(path@),
{
    let chars = chars_of(path);
    let mut end: usize = chars.len();
    assert(path@.take(end as int) == path@);
    while end > 0 && (chars[end - 1] == '/' || (end > 1 && chars[end - 1] == '.' && chars[end - 2]
        == '/'))
        invariant
            chars@ == path@,
            end <= path@.len(),
            trimmed(path@) == trimmed(path@.take(end as int)),
        decreases end,
    {
        assert(path@.take(end as int).drop_last() == path@.take(end - 1));
        end = end - 1;
    }
    assert(path@.subrange(0, end as int) == path@.take(end as int));
    path.substring_char(0, end)
}

fn last_start_of(path: &str) -> (at: usize)
    ensures
        at == last_start(path@),
        at <= path@.len(),
{
    let chars = chars_of(path);
    let mut at: usize = chars.len();
    assert(path@.take(at as int) == path@);
    while at > 0 && chars[at - 1] != '/'
        invariant
            chars@ == path@,
            at <= path@.len(),
            last_start(path@) == last_start(path@.take(at as int)),
        decreases at,
    {
        assert(path@.take(at as int).drop_last() == path@.take(at - 1));
        at = at - 1;
    }
    at
}

/// `name` under `dir`; an absolute `name` stands for itself.
pub fn join_path(dir: &str, name: &str) -> (path: String)
    ensures
        path@ == joined_path(dir@, name@),
{
    let n = dir.unicode_len();
    if name.unicode_len() > 0 && name.get_char(0) == '/' {
        name.to_owned()
    } else if n == 0 || dir.get_char(n - 1) == '/' {
        dir.to_owned().concat(name)
    } else {
        proof {
            reveal_strlit("/");
            assert(dir@ + "/"@ =~= dir@.push('/'));
        }
        dir.to_owned().concat("/").concat(name)
    }
}

/// The last component of `path`, if that names a file.
pub fn file_name_of(path: &str) -> (name: Option<String>)
    ensures
        opt_view(name) == file_name(path@),
{
    let path = trim(path);
    let at = last_start_of(path);
    let n = path.unicode_len();
    assert(path@.subrange(at as int, n as int) == path@.skip(at as int));
    let name = path.substring_char(at, n);
    if at == n || same(name, ".") || same(name, "..") {
        None
    } else {
        Some(name.to_owned())
    }
}

/// `path` with `name` in place of its file name; `name` under `path` if it has
/// none.
pub fn beside_path(path: &str, name: &str) -> (out: String)
    ensures
        out@ == beside(path@, name@),
{
    match (file_name_of(path), directory_of(path)) {
        (Some(_), Some(dir)) => join_path(dir.as_str(), name),
        _ => join_path(path, name),
    }
}

/// The directory that `path` lies in, if `path` has a component.
pub fn directory_of(path: &str) -> (out: Option<String>)
    ensures
        match out {
            Some(dir) => directory(path@) == Some(dir@),
            None => directory(path@) is None,
        },
{
    let whole = trim(path);
    if whole.unicode_len() == 0 {
        return None;
    }
    let at = last_start_of(whole);
    assert(whole@.subrange(0, at as int) == whole@.take(at as int));
    let dir = trim(whole.substring_char(0, at));
    if dir.unicode_len() == 0 && at > 0 {
        Some("/".to_owned())
    } else {
        Some(dir.to_owned())
    }
}

/// Whether `path` starts at the root.
pub open spec fn is_absolute(path: Seq<char>) -> bool {
    path.len() > 0 && path[0] == '/'
}

/// Whether a piece between `/`s stands for a component: an empty one and a
/// `.` stand for the directory they are in.
pub open spec fn is_component() -> spec_fn(Seq<char>) -> bool {
    |piece: Seq<char>| piece.len() > 0 && piece != "."@
}

/// The components of `path`. A `.` counts only where a path starts with it.
pub open spec fn components(path: Seq<char>) -> Seq<Seq<char>> {
    let pieces = split(path, '/');
    let named = pieces.filter(is_component());
    if pieces[0] == "."@ {
        seq!["."@] + named
    } else {
        named
    }
}

/// Whether two paths are the same: both start at the root or neither does,
/// and they have the same components.
pub open spec fn are_same(a: Seq<char>, b: Seq<char>) -> bool {
    is_absolute(a) == is_absolute(b) && components(a) == components(b)
}

/// The components of `path`.
pub fn components_of(path: &str) -> (found: Vec<String>)
    ensures
        views(found@) == components(path@),
{
    let pieces = split_at_each(path, '/');
    let ghost all = views(pieces@);
    let ghost keep = is_component();
    let mut found: Vec<String> = Vec::new();
    proof {
        lemma_cut(path@, '/');
        assert(all.len() > 0);
        assert(all[0] == pieces@[0]@);
        reveal(Seq::filter);
    }
    if same(pieces[0].as_str(), ".") {
        found.push(".".to_owned());
    }
    let ghost first = views(found@);
    assert(first =~= if all[0] == "."@ {
        seq!["."@]
    } else {
        Seq::empty()
    });
    let mut i: usize = 0;
    assert(first + all.take(0).filter(keep) =~= first);
    while i < pieces.len()
        invariant
            all == views(pieces@),
            keep == is_component(),
            i <= pieces@.len(),
            views(found@) == first + all.take(i as int).filter(keep),
        decreases pieces@.len() - i,
    {
        let ghost before = views(found@);
        assert(all[i as int] == pieces@[i as int]@);
        assert(all.take(i + 1).drop_last() =~= all.take(i as int));
        reveal(Seq::filter);
        let piece = &pieces[i];
        if piece.as_str().unicode_len() > 0 && !same(piece.as_str(), ".") {
            found.push(piece.clone());
            assert(views(found@) =~= before.push(piece@));
            assert(before.push(piece@) =~= first + all.take(i + 1).filter(keep));
        }
        i = i + 1;
    }
    assert(all.take(i as int) =~= all);
    assert(first + all.filter(keep) =~= components(path@));
    found
}

/// Whether `path` starts at the root.
pub fn starts_at_root(path: &str) -> (r: bool)
    ensures
        r == is_absolute(path@),
{
    path.unicode_len() > 0 && path.get_char(0) == '/'
}

/// Whether two paths are the same.
pub fn same_path(a: &str, b: &str) -> (r: bool)
    ensures
        r == are_same(a@, b@),
{
    starts_at_root(a) == starts_at_root(b) && same_texts(&components_of(a), &components_of(b))
}

/// `s` from its first component on.
pub open spec fn from_component(s: Seq<char>) -> Seq<char>
    decreases s.len(),
    via from_component_decreases
{
    let at = cut(s, '/');
    if s.len() == 0 || is_component()(s.take(at)) {
        s
    } else if at < s.len() {
        from_component(s.skip(at + 1))
    } else {
        Seq::empty()
    }
}

#[via_fn]
proof fn from_component_decreases(s: Seq<char>) {
    lemma_cut(s, '/');
}

/// What is behind the first `k` components of `s`, which starts with one.
pub open spec fn behind(s: Seq<char>, k: nat) -> Seq<char>
    decreases k,
{
    if k == 0 {
        s
    } else {
        behind(from_component(s.skip(cut(s, '/'))), (k - 1) as nat)
    }
}

/// `path` as it reads from `root`, or as it is when it does not start with the
/// components of `root`.
pub open spec fn from_root(path: Seq<char>, root: Seq<char>) -> Seq<char> {
    let start = if is_absolute(path) {
        from_component(path)
    } else {
        path
    };
    if root.len() == 0 && is_absolute(path) && trimmed(path).len() == 0 {
        "/"@
    } else if root.len() == 0 {
        trimmed(path)
    } else if is_absolute(path) == is_absolute(root) && components(root).is_prefix_of(
        components(path),
    ) {
        trimmed(behind(start, components(root).len()))
    } else {
        path
    }
}

fn first_component(chars: &Vec<char>, from: usize) -> (at: usize)
    requires
        from <= chars@.len(),
    ensures
        from <= at <= chars@.len(),
        chars@.skip(at as int) == from_component(chars@.skip(from as int)),
{
    let mut at: usize = from;
    while at < chars.len()
        invariant
            from <= at <= chars@.len(),
            from_component(chars@.skip(from as int)) == from_component(chars@.skip(at as int)),
        decreases chars@.len() - at,
    {
        let end = find_from(chars, at, '/');
        let ghost rest = chars@.skip(at as int);
        let ghost piece = rest.take(end - at);
        proof {
            reveal_strlit(".");
            if piece.len() == 1 {
                assert(piece[0] == chars@[at as int]);
                assert(piece == "."@ <==> piece[0] == '.') by {
                    if piece[0] == '.' {
                        assert(piece =~= "."@);
                    }
                }
            }
        }
        if end > at && !(end - at == 1 && chars[at] == '.') {
            assert(is_component()(piece));
            return at;
        }
        assert(!is_component()(piece));
        if end < chars.len() {
            assert(rest.skip(end - at + 1) =~= chars@.skip(end + 1));
            at = end + 1;
        } else {
            assert(chars@.skip(end as int) =~= Seq::<char>::empty());
            return end;
        }
    }
    at
}

/// `path` as it reads from `root`, or as it is when it does not start with the
/// components of `root`.
pub fn path_from_root(path: &str, root: &str) -> (out: String)
    ensures
        out@ == from_root(path@, root@),
{
    let absolute = starts_at_root(path);
    if root.unicode_len() == 0 {
        let whole = trim(path);
        return if absolute && whole.unicode_len() == 0 {
            "/".to_owned()
        } else {
            whole.to_owned()
        };
    }
    let own = components_of(path);
    let above = components_of(root);
    if absolute != starts_at_root(root) || !starts_with_texts(&own, &above) {
        return path.to_owned();
    }
    let chars = chars_of(path);
    assert(chars@.skip(0) =~= chars@);
    let mut from: usize = if absolute {
        first_component(&chars, 0)
    } else {
        0
    };
    let ghost start = chars@.skip(from as int);
    let mut k: usize = 0;
    while k < above.len()
        invariant
            k <= above@.len(),
            from <= chars@.len(),
            behind(start, above@.len()) == behind(
                chars@.skip(from as int),
                (above@.len() - k) as nat,
            ),
        decreases above@.len() - k,
    {
        let end = find_from(&chars, from, '/');
        assert(chars@.skip(from as int).skip(end - from) =~= chars@.skip(end as int));
        from = first_component(&chars, end);
        k = k + 1;
    }
    let n = path.unicode_len();
    assert(path@.subrange(from as int, n as int) =~= chars@.skip(from as int));
    trim(path.substring_char(from, n)).to_owned()
}

/// A path and one under it have the components of the two, and what is behind
/// those of the first is the second.
proof fn lemma_components_under(dir: Seq<char>, name: Seq<char>)
    ensures
        ({
            let keep = is_component();
            let path = dir.push('/') + name;
            &&& split(path, '/').filter(keep) == split(dir, '/').filter(keep) + split(
                name,
                '/',
            ).filter(keep)
            &&& behind(from_component(path), split(dir, '/').filter(keep).len()) == from_component(
                name,
            )
        }),
    decreases dir.len(),
{
    let keep = is_component();
    let path = dir.push('/') + name;
    let at = cut(dir, '/');
    lemma_cut(dir, '/');
    let piece = dir.take(at);
    assert(!piece.contains('/'));
    let rest = if at < dir.len() {
        dir.skip(at + 1).push('/') + name
    } else {
        name
    };
    assert(path =~= piece.push('/') + rest);
    lemma_cut_after(piece, '/', rest);
    assert(split(path, '/') == seq![piece] + split(rest, '/'));
    Seq::filter_distributes_over_add(seq![piece], split(rest, '/'), keep);
    let own = seq![piece].filter(keep);
    assert(own == if keep(piece) {
        seq![piece]
    } else {
        Seq::empty()
    }) by {
        reveal(Seq::filter);
        assert(seq![piece].drop_last() =~= Seq::<Seq<char>>::empty());
        assert(seq![piece].last() == piece);
        assert(Seq::<Seq<char>>::empty().filter(keep) =~= Seq::<Seq<char>>::empty());
        assert(Seq::<Seq<char>>::empty().push(piece) =~= seq![piece]);
    }
    if at < dir.len() {
        let deeper = dir.skip(at + 1);
        lemma_components_under(deeper, name);
        assert(split(dir, '/') == seq![piece] + split(deeper, '/'));
        Seq::filter_distributes_over_add(seq![piece], split(deeper, '/'), keep);
        assert((own + split(deeper, '/').filter(keep)) + split(name, '/').filter(keep) =~= own + (
        split(deeper, '/').filter(keep) + split(name, '/').filter(keep)));
    } else {
        assert(piece =~= dir);
        assert(split(dir, '/') =~= seq![piece]);
    }
    let found = split(dir, '/').filter(keep);
    let deeper = if at < dir.len() {
        split(dir.skip(at + 1), '/').filter(keep)
    } else {
        Seq::empty()
    };
    assert(found =~= own + deeper);
    assert(split(path, '/').filter(keep) =~= found + split(name, '/').filter(keep));
    assert(behind(from_component(rest), deeper.len()) == from_component(name));
    if keep(piece) {
        assert(from_component(path) == path);
        let tail = path.skip(piece.len() as int);
        assert(tail =~= Seq::<char>::empty().push('/') + rest);
        assert(!Seq::<char>::empty().contains('/'));
        lemma_cut_after(Seq::<char>::empty(), '/', rest);
        assert(!keep(tail.take(0)));
        assert(from_component(tail) == from_component(rest));
        assert(found.len() == 1 + deeper.len());
        assert(behind(path, found.len()) == behind(from_component(tail), deeper.len()));
    } else {
        assert(from_component(path) == from_component(rest));
    }
}

/// A path joined to an absolute directory reads, from that directory, as the
/// path.
pub proof fn joined_reads_from_its_directory(dir: Seq<char>, name: Seq<char>)
    requires
        is_absolute(dir),
        !is_absolute(name),
        from_component(name) == name,
        trimmed(name) == name,
    ensures
        from_root(joined_path(dir, name), dir) == name,
{
    let keep = is_component();
    let path = joined_path(dir, name);
    let nothing = Seq::<char>::empty();
    let front = if dir.last() == '/' {
        dir.drop_last()
    } else {
        dir
    };
    assert(path =~= front.push('/') + name);
    lemma_components_under(front, name);
    if dir.last() == '/' {
        lemma_components_under(front, nothing);
        assert(front.push('/') + nothing =~= dir);
        assert(split(nothing, '/') =~= seq![nothing]);
        assert(split(nothing, '/').filter(keep).len() == 0) by {
            reveal(Seq::filter);
            assert(seq![nothing].drop_last() =~= Seq::<Seq<char>>::empty());
            assert(seq![nothing].last() == nothing);
            assert(Seq::<Seq<char>>::empty().filter(keep).len() == 0);
        }
        assert(split(dir, '/').filter(keep) =~= split(front, '/').filter(keep));
    }
    lemma_starts_at_root(dir);
    lemma_starts_at_root(path);
    assert(components(dir).is_prefix_of(components(path)));
}

/// A path that starts at the root does not start with a `.`.
proof fn lemma_starts_at_root(path: Seq<char>)
    requires
        is_absolute(path),
    ensures
        components(path) == split(path, '/').filter(is_component()),
{
    reveal_strlit(".");
    assert(cut(path, '/') == 0);
    assert(split(path, '/')[0] =~= Seq::<char>::empty());
}

/// A `/` behind a path adds an empty piece.
proof fn lemma_split_slash(s: Seq<char>, name: Seq<char>)
    requires
        !name.contains('/'),
    ensures
        split(s.push('/') + name, '/') == split(s, '/').push(name),
    decreases s.len(),
{
    let whole = s.push('/') + name;
    let at = cut(s, '/');
    lemma_cut(s, '/');
    let piece = s.take(at);
    assert(!piece.contains('/'));
    if at < s.len() {
        let rest = s.skip(at + 1);
        lemma_split_slash(rest, name);
        assert(whole =~= piece.push('/') + (rest.push('/') + name));
        lemma_cut_after(piece, '/', rest.push('/') + name);
        assert(split(s, '/') == seq![piece] + split(rest, '/'));
        assert(split(whole, '/') =~= split(s, '/').push(name));
    } else {
        assert(piece =~= s);
        lemma_cut_after(piece, '/', name);
        lemma_cut_none(name, '/');
        assert(split(name, '/') =~= seq![name]);
        assert(split(s, '/') =~= seq![s]);
        assert(split(whole, '/') =~= split(s, '/').push(name));
    }
}

proof fn lemma_filter_push(pieces: Seq<Seq<char>>, piece: Seq<char>)
    ensures
        pieces.push(piece).filter(is_component()) == if is_component()(piece) {
            pieces.filter(is_component()).push(piece)
        } else {
            pieces.filter(is_component())
        },
{
    reveal(Seq::filter);
    assert(pieces.push(piece).drop_last() =~= pieces);
}

proof fn lemma_split_len(s: Seq<char>)
    ensures
        split(s, '/').len() > 0,
{
}

/// Without the `/`s and `/.`s at its end a path has the same components.
proof fn lemma_trimmed_components(path: Seq<char>)
    ensures
        components(trimmed(path)) == components(path),
        trimmed(path).len() > 0 ==> is_absolute(trimmed(path)) == is_absolute(path),
        trimmed(path).len() == 0 ==> path.len() == 0 || is_absolute(path),
    decreases path.len(),
{
    if ends_idly(path) {
        let front = path.drop_last();
        lemma_trimmed_components(front);
        let nothing = Seq::<char>::empty();
        reveal_strlit(".");
        if path.last() == '/' {
            assert(path =~= front.push('/') + nothing);
            lemma_split_slash(front, nothing);
            lemma_filter_push(split(front, '/'), nothing);
            lemma_split_len(front);
            assert(split(path, '/')[0] == split(front, '/')[0]);
        } else {
            let body = front.drop_last();
            assert("."@ =~= seq!['.']);
            assert(!"."@.contains('/'));
            assert(path =~= body.push('/') + "."@);
            assert(front =~= body.push('/') + nothing);
            lemma_split_slash(body, "."@);
            lemma_split_slash(body, nothing);
            lemma_filter_push(split(body, '/'), "."@);
            lemma_filter_push(split(body, '/'), nothing);
            lemma_split_len(body);
            assert(split(path, '/')[0] == split(body, '/')[0]);
            assert(split(front, '/')[0] == split(body, '/')[0]);
        }
    }
}

proof fn lemma_last_start_is(head: Seq<char>, name: Seq<char>)
    requires
        !name.contains('/'),
        head.len() > 0 ==> head.last() == '/',
    ensures
        last_start(head + name) == head.len(),
    decreases name.len(),
{
    let path = head + name;
    if name.len() > 0 {
        assert(name[name.len() - 1] != '/') by {
            assert(name.contains(name[name.len() - 1]));
        }
        assert(path.drop_last() =~= head + name.drop_last());
        assert forall|c: int| 0 <= c < name.drop_last().len() implies name.drop_last()[c]
            != '/' by {
            assert(name.contains(name[c]));
        }
        lemma_last_start_is(head, name.drop_last());
    } else {
        assert(path =~= head);
    }
}

/// A file in a directory has its name and lies in that directory: the path of
/// the two taken apart gives the name, and a path with the directory's
/// components.
pub proof fn a_file_lies_in_the_directory_it_is_joined_to(dir: Seq<char>, name: Seq<char>)
    requires
        name.len() > 0,
        !name.contains('/'),
        name != "."@,
        name != ".."@,
    ensures
        file_name(joined_path(dir, name)) == Some(name),
        directory(joined_path(dir, name)) matches Some(found) && is_absolute(found) == is_absolute(
            dir,
        ) && components(found) == components(dir),
{
    reveal_strlit(".");
    reveal_strlit("/");
    let path = joined_path(dir, name);
    let nothing = Seq::<char>::empty();
    assert(name[0] != '/') by {
        assert(name.contains(name[0]));
    }
    assert(name.last() != '/') by {
        assert(name.contains(name[name.len() - 1]));
    }
    let head = if dir.len() == 0 || dir.last() == '/' {
        dir
    } else {
        dir.push('/')
    };
    assert(path == head + name);
    assert(!ends_idly(path)) by {
        if path.last() == '.' && path.len() > 1 && path[path.len() - 2] == '/' {
            if name.len() > 1 {
                assert(name.contains(name[name.len() - 2]));
            } else {
                assert(name =~= "."@);
            }
        }
    }
    lemma_last_start_is(head, name);
    assert(path.skip(head.len() as int) =~= name);
    assert(path.take(head.len() as int) =~= head);
    lemma_trimmed_components(head);
    if head != dir {
        assert(head =~= dir.push('/') + nothing);
        lemma_split_slash(dir, nothing);
        lemma_filter_push(split(dir, '/'), nothing);
        lemma_split_len(dir);
        assert(split(head, '/')[0] == split(dir, '/')[0]);
    }
    assert(components(head) == components(dir));
    if trimmed(head).len() == 0 && head.len() > 0 {
        assert("/"@ =~= nothing.push('/') + nothing);
        lemma_split_slash(nothing, nothing);
        lemma_filter_push(split(nothing, '/'), nothing);
        assert(trimmed(head) =~= nothing);
        lemma_split_len(nothing);
        assert(split("/"@, '/')[0] == split(nothing, '/')[0]);
        assert(components("/"@) == components(nothing));
    }
}

/// A path and one under it are told apart by their components: those of the
/// second stand behind those of the first.
pub proof fn a_joined_path_has_the_components_of_both(dir: Seq<char>, name: Seq<char>)
    requires
        dir.len() > 0,
        !is_absolute(name),
    ensures
        is_absolute(joined_path(dir, name)) == is_absolute(dir),
        components(joined_path(dir, name)) == components(dir) + split(name, '/').filter(
            is_component(),
        ),
{
    let path = joined_path(dir, name);
    let nothing = Seq::<char>::empty();
    let front = if dir.last() == '/' {
        dir.drop_last()
    } else {
        dir
    };
    assert(path =~= front.push('/') + name);
    lemma_components_under(front, name);
    lemma_first_piece(front, name);
    if dir.last() == '/' {
        assert(dir =~= front.push('/') + nothing);
        lemma_split_slash(front, nothing);
        lemma_filter_push(split(front, '/'), nothing);
        lemma_split_len(front);
        assert(split(dir, '/')[0] == split(front, '/')[0]);
    }
    let named = split(name, '/').filter(is_component());
    assert(seq!["."@] + (split(front, '/').filter(is_component()) + named) =~= (seq!["."@] + split(
        front,
        '/',
    ).filter(is_component())) + named);
}

proof fn lemma_first_piece(front: Seq<char>, name: Seq<char>)
    ensures
        split(front.push('/') + name, '/')[0] == split(front, '/')[0],
{
    let at = cut(front, '/');
    lemma_cut(front, '/');
    let piece = front.take(at);
    let rest = if at < front.len() {
        front.skip(at + 1).push('/') + name
    } else {
        name
    };
    assert(front.push('/') + name =~= piece.push('/') + rest);
    assert(!piece.contains('/'));
    lemma_cut_after(piece, '/', rest);
    if at == front.len() {
        assert(piece =~= front);
    }
}

/// What is put beside a file lies in the file's directory, under its own name.
pub proof fn what_is_beside_a_file_lies_in_its_directory(
    dir: Seq<char>,
    file: Seq<char>,
    name: Seq<char>,
)
    requires
        dir.len() > 0,
        file.len() > 0,
        !file.contains('/'),
        file != "."@,
        file != ".."@,
        name.len() > 0,
        !name.contains('/'),
        name != "."@,
        name != ".."@,
    ensures
        file_name(beside(joined_path(dir, file), name)) == Some(name),
        directory(beside(joined_path(dir, file), name)) matches Some(at) && is_absolute(at)
            == is_absolute(dir) && components(at) == components(dir),
{
    a_file_lies_in_the_directory_it_is_joined_to(dir, file);
    let at = directory(joined_path(dir, file))->0;
    a_file_lies_in_the_directory_it_is_joined_to(at, name);
}

/// A path that does not lie under the root reads as it is.
pub proof fn a_path_elsewhere_reads_as_it_is(path: Seq<char>, root: Seq<char>)
    requires
        root.len() > 0,
        is_absolute(path) != is_absolute(root) || !components(root).is_prefix_of(components(path)),
    ensures
        from_root(path, root) == path,
{
}

/// Under an absolute directory a path reads from it as it was joined, but for
/// the `/`s and `/.`s at its end.
pub proof fn what_is_joined_reads_without_an_idle_end(dir: Seq<char>, name: Seq<char>)
    requires
        is_absolute(dir),
        !is_absolute(name),
        from_component(name) == name,
    ensures
        from_root(joined_path(dir, name), dir) == trimmed(name),
        !ends_idly(from_root(joined_path(dir, name), dir)),
{
    let keep = is_component();
    let path = joined_path(dir, name);
    let nothing = Seq::<char>::empty();
    let front = if dir.last() == '/' {
        dir.drop_last()
    } else {
        dir
    };
    assert(path =~= front.push('/') + name);
    lemma_components_under(front, name);
    if dir.last() == '/' {
        assert(dir =~= front.push('/') + nothing);
        lemma_split_slash(front, nothing);
        lemma_filter_push(split(front, '/'), nothing);
        assert(split(dir, '/').filter(keep) =~= split(front, '/').filter(keep));
    }
    lemma_starts_at_root(dir);
    lemma_starts_at_root(path);
    assert(components(dir).is_prefix_of(components(path)));
    lemma_no_idle_end(name);
}

proof fn lemma_no_idle_end(path: Seq<char>)
    ensures
        !ends_idly(trimmed(path)),
    decreases path.len(),
{
    if ends_idly(path) {
        lemma_no_idle_end(path.drop_last());
    }
}

/// Two paths are the same exactly when both start at the root or neither does,
/// and their components are the same, one by one.
pub proof fn paths_are_the_same_by_their_components(a: Seq<char>, b: Seq<char>)
    ensures
        are_same(a, b) ==> (a.len() > 0 && a[0] == '/' <==> b.len() > 0 && b[0] == '/'),
        are_same(a, b) ==> components(a).len() == components(b).len() && forall|i: int|
            0 <= i < components(a).len() ==> #[trigger] components(a)[i] == components(b)[i],
        is_absolute(a) == is_absolute(b) && components(a) == components(b) ==> are_same(a, b),
        are_same(a, b) == are_same(b, a),
        are_same(a, trimmed(a)) || trimmed(a).len() == 0,
{
    lemma_trimmed_components(a);
}

} // verus!
