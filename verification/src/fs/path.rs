//! Paths: the names between the slashes.
use vstd::prelude::*;
use vstd::string::*;

verus! {

/// The names of a path that are complete, and the one that the path ends in.
pub open spec fn pieces(p: Seq<char>) -> (Seq<Seq<char>>, Seq<char>)
    decreases p.len(),
{
    if p.len() == 0 {
        (seq![], seq![])
    } else {
        let before = pieces(p.drop_last());
        if p.last() == '/' {
            (with_name(before.0, before.1), seq![])
        } else {
            (before.0, before.1.push(p.last()))
        }
    }
}

/// A list with a name added unless it is empty.
pub open spec fn with_name(names: Seq<Seq<char>>, name: Seq<char>) -> Seq<Seq<char>> {
    if name.len() == 0 {
        names
    } else {
        names.push(name)
    }
}

/// The names of a path: what stands between slashes, without empty names.
pub open spec fn components(p: Seq<char>) -> Seq<Seq<char>> {
    with_name(pieces(p).0, pieces(p).1)
}

/// The texts of a list of strings.
pub open spec fn names_of(v: Seq<String>) -> Seq<Seq<char>> {
    v.map_values(|s: String| s@)
}

/// The names of a path.
pub fn split_path(path: &str) -> (r: Vec<String>)
    ensures
        names_of(r@) == components(path@),
{
    let n: usize = path.unicode_len();
    let mut names: Vec<String> = Vec::new();
    let mut current = String::new();
    let mut len: usize = 0;
    let mut i: usize = 0;
    assert(path@.take(0) =~= seq![]);
    assert(names_of(names@) =~= seq![]);
    assert(current@ =~= seq![]);
    while i < n
        invariant
            n == path@.len(),
            i <= n,
            len == current@.len(),
            len <= i,
            pieces(path@.take(i as int)) == (names_of(names@), current@),
        decreases n - i,
    {
        let c: char = path.get_char(i);
        assert(path@.take(i + 1).drop_last() =~= path@.take(i as int));
        if c == '/' {
            if len > 0 {
                let ghost before = names@;
                let ghost name = current@;
                names.push(current);
                assert(names_of(names@) =~= names_of(before).push(name));
            }
            current = String::new();
            assert(current@ =~= seq![]);
            len = 0;
        } else {
            current.push(c);
            len += 1;
        }
        i += 1;
    }
    assert(path@.take(n as int) =~= path@);
    if len > 0 {
        let ghost before = names@;
        let ghost name = current@;
        names.push(current);
        assert(names_of(names@) =~= names_of(before).push(name));
    }
    names
}

/// The names of a path are not empty and hold no slash.
pub proof fn law_components_are_names(p: Seq<char>, i: int)
    requires
        0 <= i < components(p).len(),
    ensures
        components(p)[i].len() > 0,
        !components(p)[i].contains('/'),
{
    lemma_pieces(p);
    if i == pieces(p).0.len() {
    } else {
        assert(components(p)[i] == pieces(p).0[i]);
    }
}

proof fn lemma_pieces(p: Seq<char>)
    ensures
        !pieces(p).1.contains('/'),
        forall|i: int|
            0 <= i < pieces(p).0.len() ==> (#[trigger] pieces(p).0[i]).len() > 0 && !pieces(
                p,
            ).0[i].contains('/'),
    decreases p.len(),
{
    if p.len() > 0 {
        let before = pieces(p.drop_last());
        lemma_pieces(p.drop_last());
        if p.last() != '/' {
            assert forall|k: int| 0 <= k < pieces(p).1.len() implies pieces(p).1[k] != '/' by {
                if k < before.1.len() {
                    assert(before.1.contains(before.1[k]));
                }
            }
        }
    }
}

/// A path of slashes alone names the root: it has no components.
pub proof fn law_slashes_name_the_root(p: Seq<char>)
    requires
        forall|i: int| 0 <= i < p.len() ==> p[i] == '/',
    ensures
        components(p).len() == 0,
    decreases p.len(),
{
    if p.len() > 0 {
        law_slashes_name_the_root(p.drop_last());
    }
}

/// A slash more at the end of a path changes nothing.
pub proof fn law_trailing_slash(p: Seq<char>)
    ensures
        components(p.push('/')) == components(p),
{
    assert(p.push('/').drop_last() =~= p);
}

/// Two paths with a slash between them have the names of both, in order.
pub proof fn law_joined_paths(p: Seq<char>, q: Seq<char>)
    ensures
        components(p.push('/') + q) == components(p) + components(q),
{
    lemma_joined_pieces(p, q);
    let both = pieces(p.push('/') + q);
    assert(components(p.push('/') + q) =~= components(p) + components(q));
}

proof fn lemma_joined_pieces(p: Seq<char>, q: Seq<char>)
    ensures
        pieces(p.push('/') + q) == (components(p) + pieces(q).0, pieces(q).1),
    decreases q.len(),
{
    let all = p.push('/') + q;
    if q.len() == 0 {
        assert(all =~= p.push('/'));
        assert(all.drop_last() =~= p);
        assert(components(p) + pieces(q).0 =~= components(p));
    } else {
        assert(all.drop_last() =~= p.push('/') + q.drop_last());
        lemma_joined_pieces(p, q.drop_last());
        assert(components(p) + with_name(pieces(q.drop_last()).0, pieces(q.drop_last()).1)
            =~= with_name(components(p) + pieces(q.drop_last()).0, pieces(q.drop_last()).1));
    }
}

/// A name without a slash is the only name of the path that it makes.
pub proof fn law_one_name(name: Seq<char>)
    requires
        name.len() > 0,
        !name.contains('/'),
    ensures
        components(name) == seq![name],
{
    lemma_one_name(name);
    assert(components(name) =~= seq![name]);
}

proof fn lemma_one_name(name: Seq<char>)
    requires
        !name.contains('/'),
    ensures
        pieces(name) == (Seq::<Seq<char>>::empty(), name),
    decreases name.len(),
{
    if name.len() > 0 {
        let before = name.drop_last();
        assert(!before.contains('/')) by {
            assert forall|i: int| 0 <= i < before.len() implies before[i] != '/' by {
                assert(name[i] == before[i]);
            }
        }
        assert(name[name.len() - 1] != '/');
        lemma_one_name(before);
        assert(before.push(name.last()) =~= name);
    } else {
        assert(name =~= seq![]);
    }
}

} // verus!
