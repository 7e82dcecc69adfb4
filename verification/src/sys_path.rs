//! The path helpers configurations get as `sys.path`: joining, splitting,
//! normalizing and relating Unix paths, component by component as
//! `std::path` sees them.
use vstd::prelude::*;
use crate::text::{path_join, join_path, last_index_of, find_last_char, char_len, char_substring, concat_str, compare_str_eq};

verus! {

/// The components of a path as `std::path::Path::components` gives them,
/// each as its text: `/` for the root, `.` for a leading current directory,
/// `..` for a parent directory, and the names.
pub uninterp spec fn component_texts(p: Seq<char>) -> Seq<Seq<char>>;

/// Calls `std::path::Path::components`. Trusted: the texts of the
/// components, a function of the path alone (named, not computed here).
#[verifier::external_body]
fn components_of(p: &str) -> (r: Vec<String>)
    ensures
        r@.map_values(|s: String| s@) == component_texts(p@),
{
    let mut out = Vec::new();
    for c in std::path::Path::new(p).components() {
        out.push(c.as_os_str().to_string_lossy().into_owned());
    }
    out
}

/// The parent of a path as `std::path::Path::parent` gives it.
pub uninterp spec fn path_parent(p: Seq<char>) -> Option<Seq<char>>;

/// Calls `std::path::Path::parent`. Trusted: the result depends on the path
/// alone (named, not computed here); the empty path and the root have none,
/// as the documentation says.
#[verifier::external_body]
fn parent_of(p: &str) -> (r: Option<String>)
    ensures
        match r {
            Some(s) => path_parent(p@) == Some(s@),
            None => path_parent(p@) is None,
        },
        p@.len() == 0 || p@ == "/"@ ==> r is None,
{
    std::path::Path::new(p).parent().map(|q| q.to_string_lossy().into_owned())
}

/// The text of a list of optional strings, the absent ones left out.
pub open spec fn present_texts(segments: Seq<Option<String>>) -> Seq<Seq<char>>
    decreases segments.len(),
{
    if segments.len() == 0 {
        Seq::empty()
    } else {
        let rest = present_texts(segments.drop_last());
        match segments.last() {
            Some(s) => rest.push(s@),
            None => rest,
        }
    }
}

/// Pushing each text onto a path in turn, as `PathBuf::push` does (an
/// absolute text replaces the path).
pub open spec fn pushed_all(base: Seq<char>, texts: Seq<Seq<char>>) -> Seq<char>
    decreases texts.len(),
{
    if texts.len() == 0 {
        base
    } else {
        path_join(pushed_all(base, texts.drop_last()), texts.last())
    }
}

/// Pushes each text onto a path in turn.
fn push_all(base: String, texts: &Vec<String>, from: usize) -> (r: String)
    requires
        from <= texts@.len(),
    ensures
        r@ == pushed_all(base@, texts@.map_values(|s: String| s@).skip(from as int)),
{
    let ghost ts = texts@.map_values(|s: String| s@).skip(from as int);
    let mut acc = base;
    let ghost b0 = acc@;
    let mut i: usize = from;
    proof {
        assert(ts.take(0) =~= Seq::<Seq<char>>::empty());
    }
    while i < texts.len()
        invariant
            from <= i <= texts@.len(),
            ts == texts@.map_values(|s: String| s@).skip(from as int),
            acc@ == pushed_all(b0, ts.take(i - from)),
        decreases texts@.len() - i,
    {
        acc = join_path(acc.as_str(), texts[i].as_str());
        proof {
            assert(ts.take(i + 1 - from).drop_last() =~= ts.take(i - from));
            assert(ts.take(i + 1 - from).last() == texts@[i as int]@);
        }
        i = i + 1;
    }
    proof {
        assert(ts.take(i - from) =~= ts);
    }
    acc
}

/// `sys.path.join`: the string segments pushed in turn onto an empty path
/// (other values are left out).
pub fn join(segments: &Vec<Option<String>>) -> (r: String)
    ensures
        r@ == pushed_all(Seq::empty(), present_texts(segments@)),
{
    let mut acc = String::new();
    let mut i: usize = 0;
    proof {
        assert(segments@.take(0) =~= Seq::<Option<String>>::empty());
    }
    while i < segments.len()
        invariant
            i <= segments@.len(),
            acc@ == pushed_all(Seq::empty(), present_texts(segments@.take(i as int))),
        decreases segments@.len() - i,
    {
        proof {
            assert(segments@.take(i + 1).drop_last() =~= segments@.take(i as int));
            assert(segments@.take(i + 1).last() == segments@[i as int]);
        }
        let ghost t0 = present_texts(segments@.take(i as int));
        match &segments[i] {
            Some(s) => {
                acc = join_path(acc.as_str(), s.as_str());
                proof {
                    assert(t0.push(s@).drop_last() =~= t0);
                }
            },
            None => {},
        }
        i = i + 1;
    }
    proof {
        assert(segments@.take(i as int) =~= segments@);
    }
    acc
}

/// `PathBuf::pop` on the paths `normalize` builds (single separators, no
/// trailing one): the last component goes; the root and the empty path stay.
pub open spec fn popped(p: Seq<char>) -> Seq<char> {
    if p.len() == 0 || p == "/"@ {
        p
    } else if last_index_of(p, '/') < 0 {
        Seq::empty()
    } else if last_index_of(p, '/') == 0 {
        "/"@
    } else {
        p.take(last_index_of(p, '/'))
    }
}

/// Folding the components into a path: `..` pops, `.` is dropped, any other
/// component is pushed.
pub open spec fn normalized_from(acc: Seq<char>, comps: Seq<Seq<char>>) -> Seq<char>
    decreases comps.len(),
{
    if comps.len() == 0 {
        acc
    } else {
        let c = comps[0];
        let next = if c == ".."@ {
            popped(acc)
        } else if c == "."@ {
            acc
        } else {
            path_join(acc, c)
        };
        normalized_from(next, comps.drop_first())
    }
}

/// Pops the last component (see `popped`).
fn pop_component(p: String) -> (r: String)
    ensures
        r@ == popped(p@),
{
    let root = "/";
    proof {
        reveal_strlit("/");
        crate::text::lemma_last_index_of(p@, '/');
    }
    if char_len(p.as_str()) == 0 || compare_str_eq(p.as_str(), root) {
        return p;
    }
    match find_last_char(p.as_str(), '/') {
        None => String::new(),
        Some(i) => {
            if i == 0 {
                root.to_owned()
            } else {
                char_substring(p.as_str(), 0, i)
            }
        },
    }
}

/// Folds components into a path (see `normalized_from`).
fn normalize_components(comps: &Vec<String>) -> (r: String)
    ensures
        r@ == normalized_from(Seq::empty(), comps@.map_values(|s: String| s@)),
{
    let ghost cs = comps@.map_values(|s: String| s@);
    let mut acc = String::new();
    let mut i: usize = 0;
    let dot = ".";
    let dots = "..";
    proof {
        reveal_strlit(".");
        reveal_strlit("..");
        assert(cs.skip(0) =~= cs);
    }
    while i < comps.len()
        invariant
            i <= comps@.len(),
            cs == comps@.map_values(|s: String| s@),
            dot@ == "."@,
            dots@ == ".."@,
            normalized_from(Seq::empty(), cs) == normalized_from(acc@, cs.skip(i as int)),
        decreases comps@.len() - i,
    {
        proof {
            assert(cs.skip(i as int)[0] == comps@[i as int]@);
            assert(cs.skip(i as int).drop_first() =~= cs.skip(i + 1));
        }
        let c = comps[i].as_str();
        if compare_str_eq(c, dots) {
            acc = pop_component(acc);
        } else if compare_str_eq(c, dot) {
        } else {
            acc = join_path(acc.as_str(), c);
        }
        i = i + 1;
    }
    proof {
        assert(cs.skip(i as int) =~= Seq::<Seq<char>>::empty());
    }
    acc
}

/// `sys.path.normalize`: the path's components folded without touching the
/// file system (`..` removes the component before it, `.` goes).
pub fn normalize(p: &str) -> (r: String)
    ensures
        r@ == normalized_from(Seq::empty(), component_texts(p@)),
{
    let comps = components_of(p);
    normalize_components(&comps)
}

/// `sys.path.resolve`: the string segments pushed in turn onto the current
/// directory (an absolute one replaces it), then normalized.
pub fn resolve(current_dir: &str, segments: &Vec<Option<String>>) -> (r: String)
    ensures
        r@ == normalized_from(Seq::empty(), component_texts(pushed_all(current_dir@, present_texts(segments@)))),
{
    let mut acc = current_dir.to_owned();
    let mut i: usize = 0;
    proof {
        assert(segments@.take(0) =~= Seq::<Option<String>>::empty());
    }
    while i < segments.len()
        invariant
            i <= segments@.len(),
            acc@ == pushed_all(current_dir@, present_texts(segments@.take(i as int))),
        decreases segments@.len() - i,
    {
        proof {
            assert(segments@.take(i + 1).drop_last() =~= segments@.take(i as int));
            assert(segments@.take(i + 1).last() == segments@[i as int]);
        }
        let ghost t0 = present_texts(segments@.take(i as int));
        match &segments[i] {
            Some(s) => {
                acc = join_path(acc.as_str(), s.as_str());
                proof {
                    assert(t0.push(s@).drop_last() =~= t0);
                }
            },
            None => {},
        }
        i = i + 1;
    }
    proof {
        assert(segments@.take(i as int) =~= segments@);
    }
    normalize(acc.as_str())
}

/// The number of leading components two lists share.
pub open spec fn common_prefix_len(a: Seq<Seq<char>>, b: Seq<Seq<char>>) -> nat
    decreases a.len(),
{
    if a.len() == 0 || b.len() == 0 || a[0] != b[0] {
        0
    } else {
        1 + common_prefix_len(a.drop_first(), b.drop_first())
    }
}

/// The relative path from one path to another: `..` for each component of
/// `from` past their common prefix, then the rest of `to`; `.` when that is empty.
pub open spec fn relative_path(from: Seq<Seq<char>>, to: Seq<Seq<char>>) -> Seq<char> {
    let k = common_prefix_len(from, to);
    let ups = Seq::new((from.len() - k) as nat, |i: int| ".."@);
    let r = pushed_all(pushed_all(Seq::empty(), ups), to.skip(k as int));
    if r.len() == 0 {
        "."@
    } else {
        r
    }
}

proof fn lemma_common_prefix_bound(a: Seq<Seq<char>>, b: Seq<Seq<char>>)
    ensures
        common_prefix_len(a, b) <= a.len(),
        common_prefix_len(a, b) <= b.len(),
    decreases a.len(),
{
    if a.len() > 0 && b.len() > 0 && a[0] == b[0] {
        lemma_common_prefix_bound(a.drop_first(), b.drop_first());
    }
}

/// Counts the shared leading components.
fn count_common(a: &Vec<String>, b: &Vec<String>) -> (k: usize)
    ensures
        k == common_prefix_len(a@.map_values(|s: String| s@), b@.map_values(|s: String| s@)),
{
    let ghost av = a@.map_values(|s: String| s@);
    let ghost bv = b@.map_values(|s: String| s@);
    let mut k: usize = 0;
    proof {
        assert(av.skip(0) =~= av);
        assert(bv.skip(0) =~= bv);
    }
    while k < a.len() && k < b.len() && compare_str_eq(a[k].as_str(), b[k].as_str())
        invariant
            k <= a@.len(),
            k <= b@.len(),
            av == a@.map_values(|s: String| s@),
            bv == b@.map_values(|s: String| s@),
            common_prefix_len(av, bv) == k + common_prefix_len(av.skip(k as int), bv.skip(k as int)),
        decreases a@.len() - k,
    {
        proof {
            assert(av.skip(k as int)[0] == a@[k as int]@);
            assert(bv.skip(k as int)[0] == b@[k as int]@);
            assert(av.skip(k as int).drop_first() =~= av.skip(k + 1));
            assert(bv.skip(k as int).drop_first() =~= bv.skip(k + 1));
        }
        k = k + 1;
    }
    proof {
        if k < a@.len() && k < b@.len() {
            assert(av.skip(k as int)[0] == a@[k as int]@);
            assert(bv.skip(k as int)[0] == b@[k as int]@);
        }
    }
    k
}

/// `sys.path.relative`: the path from `from` to `to` (see `relative_path`).
pub fn relative(from: &str, to: &str) -> (r: String)
    ensures
        r@ == relative_path(component_texts(from@), component_texts(to@)),
{
    let fc = components_of(from);
    let tc = components_of(to);
    let k = count_common(&fc, &tc);
    let ghost fv = fc@.map_values(|s: String| s@);
    let ghost tv = tc@.map_values(|s: String| s@);
    proof {
        lemma_common_prefix_bound(fv, tv);
    }
    let dots = "..";
    proof {
        reveal_strlit("..");
    }
    let n_up = fc.len() - k;
    let ghost ups = Seq::new(n_up as nat, |i: int| ".."@);
    let mut acc = String::new();
    let mut j: usize = 0;
    while j < n_up
        invariant
            j <= n_up,
            dots@ == ".."@,
            ups == Seq::new(n_up as nat, |i: int| ".."@),
            acc@ == pushed_all(Seq::empty(), ups.take(j as int)),
        decreases n_up - j,
    {
        acc = join_path(acc.as_str(), dots);
        proof {
            assert(ups.take(j + 1).drop_last() =~= ups.take(j as int));
        }
        j = j + 1;
    }
    proof {
        assert(ups.take(n_up as int) =~= ups);
    }
    let r = push_all(acc, &tc, k);
    if char_len(r.as_str()) == 0 {
        let d = ".";
        proof {
            reveal_strlit(".");
        }
        d.to_owned()
    } else {
        r
    }
}

/// `sys.path.split`: the texts of the path's components.
pub fn split(p: &str) -> (r: Vec<String>)
    ensures
        r@.map_values(|s: String| s@) == component_texts(p@),
{
    components_of(p)
}

/// The final component when it is a name (not the root, `.` or `..`).
pub open spec fn file_name_of(p: Seq<char>) -> Option<Seq<char>> {
    let cs = component_texts(p);
    if cs.len() > 0 && cs.last() != "/"@ && cs.last() != "."@ && cs.last() != ".."@ {
        Some(cs.last())
    } else {
        None
    }
}

/// The final component's name, or nothing.
fn file_name(p: &str) -> (r: Option<String>)
    ensures
        match r {
            Some(s) => file_name_of(p@) == Some(s@),
            None => file_name_of(p@) is None,
        },
{
    let cs = components_of(p);
    let n = cs.len();
    let root = "/";
    let dot = ".";
    let dots = "..";
    proof {
        reveal_strlit("/");
        reveal_strlit(".");
        reveal_strlit("..");
    }
    if n == 0 {
        return None;
    }
    let last = cs[n - 1].as_str();
    proof {
        assert(component_texts(p@).last() == cs@[n - 1]@);
    }
    if compare_str_eq(last, root) || compare_str_eq(last, dot) || compare_str_eq(last, dots) {
        None
    } else {
        Some(last.to_owned())
    }
}

/// `sys.path.basename`: the final component's name, or the empty string.
pub fn basename(p: &str) -> (r: String)
    ensures
        r@ == match file_name_of(p@) {
            Some(n) => n,
            None => Seq::empty(),
        },
{
    match file_name(p) {
        Some(n) => n,
        None => String::new(),
    }
}

/// The extension of a file name, as `Path::extension` documents it: the part
/// after the last `.`, unless there is none or the only one starts the name.
pub open spec fn extension_of(name: Seq<char>) -> Option<Seq<char>> {
    if last_index_of(name, '.') <= 0 {
        None
    } else {
        Some(name.skip(last_index_of(name, '.') + 1))
    }
}

/// `sys.path.extname`: the extension with its dot, or the empty string.
pub fn extname(p: &str) -> (r: String)
    ensures
        r@ == match file_name_of(p@) {
            Some(n) => match extension_of(n) {
                Some(e) => "."@ + e,
                None => Seq::empty(),
            },
            None => Seq::empty(),
        },
{
    match file_name(p) {
        None => String::new(),
        Some(n) => {
            proof {
                crate::text::lemma_last_index_of(n@, '.');
            }
            match find_last_char(n.as_str(), '.') {
                None => String::new(),
                Some(i) => {
                    if i == 0 {
                        String::new()
                    } else {
                        let len = char_len(n.as_str());
                        let e = char_substring(n.as_str(), i + 1, len);
                        let dot = ".";
                        proof {
                            reveal_strlit(".");
                        }
                        concat_str(dot, e.as_str())
                    }
                },
            }
        },
    }
}

/// `sys.path.dirname`: the path's parent, or the empty string.
pub fn dirname(p: &str) -> (r: String)
    ensures
        r@ == match path_parent(p@) {
            Some(q) => q,
            None => Seq::empty(),
        },
        p@.len() == 0 || p@ == "/"@ ==> r@.len() == 0,
{
    match parent_of(p) {
        Some(q) => q,
        None => String::new(),
    }
}

/// `sys.path.is_absolute`: on Unix, whether the path starts at the root.
pub fn is_absolute(p: &str) -> (b: bool)
    ensures
        b == (p@.len() > 0 && p@[0] == '/'),
{
    char_len(p) > 0 && p.get_char(0) == '/'
}

} // verus!
