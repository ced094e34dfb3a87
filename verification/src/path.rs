//! Paths, as names divided by slashes.
use crate::text;
use crate::text::{has_prefix, joined, split_on, texts};
use vstd::prelude::*;

verus! {

/// The parts that are not empty.
pub open spec fn nonempty(parts: Seq<Seq<char>>) -> Seq<Seq<char>>
    decreases parts.len(),
{
    if parts.len() == 0 {
        Seq::empty()
    } else if parts.last().len() == 0 {
        nonempty(parts.drop_last())
    } else {
        nonempty(parts.drop_last()).push(parts.last())
    }
}

/// The names of a path.
pub open spec fn segments_of(path: Seq<char>) -> Seq<Seq<char>> {
    nonempty(split_on(path, '/'))
}

/// The names of a path.
pub fn segments(path: &str) -> (r: Vec<String>)
    ensures
        texts(r@) == segments_of(path@),
{
    let parts = text::split(path, '/');
    let ghost all = texts(parts@);
    let mut out: Vec<String> = Vec::new();
    let mut i: usize = 0;
    assert(texts(out@) =~= nonempty(all.take(0)));
    while i < parts.len()
        invariant
            i <= parts.len(),
            all == texts(parts@),
            texts(out@) == nonempty(all.take(i as int)),
        decreases parts.len() - i,
    {
        assert(all.take(i + 1).drop_last() =~= all.take(i as int));
        assert(all[i as int] == parts@[i as int]@);
        if !parts[i].as_str().is_empty() {
            let ghost before = out@;
            out.push(parts[i].clone());
            assert(texts(out@) =~= texts(before).push(all[i as int]));
        }
        i = i + 1;
    }
    assert(all.take(i as int) =~= all);
    out
}

/// The names other than the one that stands for the directory itself.
pub open spec fn without_dots(parts: Seq<Seq<char>>) -> Seq<Seq<char>>
    decreases parts.len(),
{
    if parts.len() == 0 {
        Seq::empty()
    } else if parts.last() == "."@ {
        without_dots(parts.drop_last())
    } else {
        without_dots(parts.drop_last()).push(parts.last())
    }
}

/// The components of a path: its names without those that stand for the directory itself,
/// but for one that a relative path begins with.
pub open spec fn components_of(path: Seq<char>) -> Seq<Seq<char>> {
    let parts = segments_of(path);
    if parts.len() > 0 && parts[0] == "."@ && !has_prefix(path, "/"@) {
        seq!["."@] + without_dots(parts.skip(1))
    } else {
        without_dots(parts)
    }
}

/// Two paths lead to the same place as far as their spelling tells.
pub open spec fn same_place(a: Seq<char>, b: Seq<char>) -> bool {
    has_prefix(a, "/"@) == has_prefix(b, "/"@) && components_of(a) == components_of(b)
}

fn drop_dots(parts: &Vec<String>, from: usize) -> (r: Vec<String>)
    requires
        from <= parts.len(),
    ensures
        texts(r@) == without_dots(texts(parts@).skip(from as int)),
{
    let ghost all = texts(parts@).skip(from as int);
    let mut out: Vec<String> = Vec::new();
    let mut i: usize = from;
    assert(texts(out@) =~= without_dots(all.take(0)));
    while i < parts.len()
        invariant
            from <= i <= parts.len(),
            all == texts(parts@).skip(from as int),
            texts(out@) == without_dots(all.take(i - from)),
        decreases parts.len() - i,
    {
        assert(all.take(i - from + 1).drop_last() =~= all.take(i - from));
        assert(all[i - from] == parts@[i as int]@);
        if !text::same(parts[i].as_str(), ".") {
            let ghost before = out@;
            out.push(parts[i].clone());
            assert(texts(out@) =~= texts(before).push(all[i - from]));
        }
        i = i + 1;
    }
    assert(all.take(i - from) =~= all);
    out
}

/// The components of a path.
pub fn components(path: &str) -> (r: Vec<String>)
    ensures
        texts(r@) == components_of(path@),
{
    let parts = segments(path);
    assert(texts(parts@).len() == parts@.len());
    if parts.len() > 0 && text::same(parts[0].as_str(), ".") && !text::starts_with(path, "/") {
        let mut out = drop_dots(&parts, 1);
        let ghost before = out@;
        out.insert(0, ".".to_owned());
        assert(texts(out@) =~= seq!["."@] + texts(before));
        out
    } else {
        let out = drop_dots(&parts, 0);
        assert(texts(parts@).skip(0) =~= texts(parts@));
        out
    }
}

/// The segments of a path that are not a single point.
pub fn undotted(path: &str) -> (r: Vec<String>)
    ensures
        texts(r@) == without_dots(segments_of(path@)),
{
    let parts = segments(path);
    assert(texts(parts@).skip(0) =~= texts(parts@));
    drop_dots(&parts, 0)
}

/// Whether two lists hold the same texts.
pub fn same_texts(a: &Vec<String>, b: &Vec<String>) -> (r: bool)
    ensures
        r == (texts(a@) == texts(b@)),
{
    if a.len() != b.len() {
        assert(texts(a@).len() != texts(b@).len());
        return false;
    }
    let mut i: usize = 0;
    while i < a.len()
        invariant
            i <= a.len(),
            a.len() == b.len(),
            forall|k: int| 0 <= k < i ==> texts(a@)[k] == texts(b@)[k],
        decreases a.len() - i,
    {
        if !text::same(a[i].as_str(), b[i].as_str()) {
            assert(texts(a@)[i as int] != texts(b@)[i as int]);
            return false;
        }
        i = i + 1;
    }
    assert(texts(a@) =~= texts(b@));
    true
}

/// Whether two paths lead to the same place as far as their spelling tells.
pub fn same(a: &str, b: &str) -> (r: bool)
    ensures
        r == same_place(a@, b@),
{
    let x = components(a);
    let y = components(b);
    text::starts_with(a, "/") == text::starts_with(b, "/") && same_texts(&x, &y)
}

/// The names of a path with one slash between any two.
pub open spec fn tidy_path(path: Seq<char>) -> Seq<char> {
    joined(segments_of(path), "/"@)
}

/// The names of a path with one slash between any two.
pub fn tidy(path: &str) -> (r: String)
    ensures
        r@ == tidy_path(path@),
{
    let parts = segments(path);
    text::join(&parts, "/")
}

/// The names of a path but for those that stand for the directory itself, with one slash
/// between any two.
pub open spec fn relative_form(path: Seq<char>) -> Seq<char> {
    joined(without_dots(segments_of(path)), "/"@)
}

proof fn lemma_without_dots(parts: Seq<Seq<char>>)
    requires
        forall|i: int| 0 <= i < parts.len() ==> #[trigger] parts[i] != "."@,
    ensures
        without_dots(parts) == parts,
    decreases parts.len(),
{
    if parts.len() > 0 {
        assert forall|i: int| 0 <= i < parts.drop_last().len() implies #[trigger] parts.drop_last()[i]
            != "."@ by {
            assert(parts.drop_last()[i] == parts[i]);
        }
        lemma_without_dots(parts.drop_last());
        assert(parts[parts.len() - 1] == parts.last());
        assert(without_dots(parts) =~= parts);
    } else {
        assert(without_dots(parts) =~= parts);
    }
}

/// A path of names that are neither empty nor stand for the directory itself, divided by one
/// slash each, is in that form already.
pub proof fn relative_forms_stay(path: Seq<char>)
    requires
        forall|i: int| 0 <= i < split_on(path, '/').len() ==> {
            let name = #[trigger] split_on(path, '/')[i];
            name.len() > 0 && name != "."@
        },
    ensures
        relative_form(path) == path,
{
    lemma_nonempty(split_on(path, '/'));
    lemma_without_dots(split_on(path, '/'));
    text::splitting_and_joining(path, '/');
    reveal_strlit("/");
    assert("/"@ =~= seq!['/']);
}

proof fn lemma_nonempty(parts: Seq<Seq<char>>)
    requires
        forall|i: int| 0 <= i < parts.len() ==> (#[trigger] parts[i]).len() > 0,
    ensures
        nonempty(parts) == parts,
    decreases parts.len(),
{
    if parts.len() > 0 {
        assert forall|i: int| 0 <= i < parts.drop_last().len() implies (
        #[trigger] parts.drop_last()[i]).len() > 0 by {
            assert(parts.drop_last()[i] == parts[i]);
        }
        lemma_nonempty(parts.drop_last());
        assert(nonempty(parts) =~= parts);
    } else {
        assert(nonempty(parts) =~= parts);
    }
}

/// A path of names that are not empty, divided by one slash each, is tidy already.
pub proof fn tidy_paths_stay(path: Seq<char>)
    requires
        forall|i: int| 0 <= i < split_on(path, '/').len() ==> (#[trigger] split_on(path, '/')[i]).len()
            > 0,
    ensures
        tidy_path(path) == path,
{
    lemma_nonempty(split_on(path, '/'));
    text::splitting_and_joining(path, '/');
    reveal_strlit("/");
    assert("/"@ =~= seq!['/']);
}

/// A name below a directory.
pub open spec fn child_of(directory: Seq<char>, name: Seq<char>) -> Seq<char> {
    if directory.len() == 0 || directory.last() == '/' {
        directory + name
    } else {
        directory + "/"@ + name
    }
}

/// A name below a directory.
pub fn child(directory: &str, name: &str) -> (r: String)
    ensures
        r@ == child_of(directory@, name@),
{
    proof {
        reveal_strlit("/");
    }
    if directory.is_empty() {
        assert(directory@ + name@ =~= child_of(directory@, name@));
        return text::cat(directory, name);
    }
    if text::ends_with(directory, "/") {
        assert(directory@.last() == '/') by {
            assert(directory@.subrange(directory@.len() - 1, directory@.len() as int)[0]
                == "/"@[0]);
        }
        return text::cat(directory, name);
    }
    assert(directory@.last() != '/') by {
        if directory@.last() == '/' {
            assert(directory@.subrange(directory@.len() - 1, directory@.len() as int) =~= "/"@);
        }
    }
    text::cat3(directory, "/", name)
}

proof fn lemma_last_piece(s: Seq<char>, name: Seq<char>)
    requires
        !name.contains('/'),
    ensures
        split_on(s + "/"@ + name, '/') == split_on(s, '/').push(name),
    decreases name.len(),
{
    reveal_strlit("/");
    let slash = "/"@;
    let all = s + slash + name;
    if name.len() == 0 {
        assert(all.drop_last() =~= s);
        assert(name =~= Seq::<char>::empty());
        assert(all.last() == '/');
    } else {
        let t = name.drop_last();
        assert(!t.contains('/')) by {
            if t.contains('/') {
                let i = choose|i: int| 0 <= i < t.len() && t[i] == '/';
                assert(name[i] == '/');
            }
        }
        lemma_last_piece(s, t);
        assert(all.drop_last() =~= s + slash + t);
        assert(name[name.len() - 1] != '/');
        assert(all.last() == name.last());
        let before = split_on(s + slash + t, '/');
        assert(before.drop_last() =~= split_on(s, '/'));
        assert(before.last().push(name.last()) =~= name);
    }
}

proof fn lemma_only_piece(name: Seq<char>)
    requires
        !name.contains('/'),
    ensures
        split_on(name, '/') == seq![name],
    decreases name.len(),
{
    if name.len() == 0 {
        assert(name =~= Seq::<char>::empty());
    } else {
        let t = name.drop_last();
        assert(!t.contains('/')) by {
            if t.contains('/') {
                let i = choose|i: int| 0 <= i < t.len() && t[i] == '/';
                assert(name[i] == '/');
            }
        }
        lemma_only_piece(t);
        assert(name[name.len() - 1] != '/');
        assert(t.push(name.last()) =~= name);
        assert(seq![t].drop_last() =~= Seq::<Seq<char>>::empty());
        assert(split_on(name, '/') =~= seq![name]);
    }
}

/// The last component of a path below a directory is the name that it was given.
pub proof fn last_names_are_found(directory: Seq<char>, name: Seq<char>)
    requires
        name.len() > 0,
        name != "."@,
        !name.contains('/'),
    ensures
        components_of(child_of(directory, name)).len() > 0,
        components_of(child_of(directory, name)).last() == name,
{
    reveal_strlit("/");
    let path = child_of(directory, name);
    let pieces = split_on(path, '/');
    if directory.len() == 0 {
        assert(path =~= name);
        lemma_only_piece(name);
    } else if directory.last() == '/' {
        assert(path =~= directory.drop_last() + "/"@ + name);
        lemma_last_piece(directory.drop_last(), name);
    } else {
        lemma_last_piece(directory, name);
    }
    assert(pieces.last() == name);
    let parts = segments_of(path);
    assert(parts.last() == name && parts.len() > 0);
    if parts[0] == "."@ && !has_prefix(path, "/"@) {
        let rest = parts.skip(1);
        assert(rest.last() == name);
        assert(without_dots(rest).last() == name);
    }
}

} // verus!
