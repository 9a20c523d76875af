//! `/`-separated file paths, as the module resolver walks them.

use vstd::prelude::*;

use crate::text::{chars_of, concat, owned, string_from_chars, substring};

verus! {

/// `s` without the trailing `/` characters after its first character.
pub open spec fn trim_trailing_slashes(s: Seq<char>) -> Seq<char>
    decreases s.len(),
{
    if s.len() > 1 && s.last() == '/' {
        trim_trailing_slashes(s.drop_last())
    } else {
        s
    }
}

/// The index of the last `/` in `s`, if any.
pub open spec fn last_slash(s: Seq<char>) -> Option<int>
    decreases s.len(),
{
    if s.len() == 0 {
        None
    } else if s.last() == '/' {
        Some(s.len() - 1)
    } else {
        last_slash(s.drop_last())
    }
}

/// The directory that contains `p`: `None` for the root and the empty path.
pub open spec fn parent_of(p: Seq<char>) -> Option<Seq<char>> {
    let t = trim_trailing_slashes(p);
    if t.len() == 0 || t == seq!['/'] {
        None
    } else {
        match last_slash(t) {
            None => Some(seq![]),
            Some(i) => if i == 0 {
                Some(seq!['/'])
            } else {
                Some(trim_trailing_slashes(t.subrange(0, i)))
            },
        }
    }
}

/// `base/name`; an absolute `name` stands for itself.
pub open spec fn joined(base: Seq<char>, name: Seq<char>) -> Seq<char> {
    if name.len() > 0 && name[0] == '/' {
        name
    } else if base.len() == 0 {
        name
    } else if base.last() == '/' {
        base + name
    } else {
        base + seq!['/'] + name
    }
}

fn trim_slashes(chars: &Vec<char>, len: usize) -> (n: usize)
    requires
        len <= chars.len(),
    ensures
        n <= len,
        trim_trailing_slashes(chars@.subrange(0, len as int)) == chars@.subrange(0, n as int),
{
    let mut n = len;
    while n > 1 && chars[n - 1] == '/'
        invariant
            n <= len <= chars.len(),
            trim_trailing_slashes(chars@.subrange(0, len as int)) == trim_trailing_slashes(
                chars@.subrange(0, n as int),
            ),
        decreases n,
    {
        proof {
            assert(chars@.subrange(0, n as int).drop_last() =~= chars@.subrange(0, n - 1));
        }
        n = n - 1;
    }
    n
}

/// `Path::parent`: the directory that contains `path`.
pub fn parent(path: &String) -> (r: Option<String>)
    ensures
        match parent_of(path@) {
            Some(q) => r is Some && r->Some_0@ == q,
            None => r is None,
        },
        r matches Some(q) ==> q@.len() < path@.len(),
{
    let chars = chars_of(path.as_str());
    proof {
        assert(chars@.subrange(0, chars@.len() as int) =~= chars@);
    }
    let n = trim_slashes(&chars, chars.len());
    let ghost t = chars@.subrange(0, n as int);
    if n == 0 || (n == 1 && chars[0] == '/') {
        proof {
            if n == 1 {
                assert(t =~= seq!['/']);
            }
        }
        return None;
    }
    proof {
        assert(t != seq!['/']) by {
            if t == seq!['/'] {
                assert(t.len() == 1 && t[0] == '/');
            }
        }
    }
    let mut k = n;
    while k > 0 && chars[k - 1] != '/'
        invariant
            k <= n <= chars.len(),
            last_slash(t) == last_slash(chars@.subrange(0, k as int)),
            t == chars@.subrange(0, n as int),
        decreases k,
    {
        proof {
            assert(chars@.subrange(0, k as int).drop_last() =~= chars@.subrange(0, k - 1));
        }
        k = k - 1;
    }
    if k == 0 {
        proof {
            assert(chars@.subrange(0, 0) =~= Seq::<char>::empty());
        }
        let r = owned("");
        proof {
            reveal_strlit("");
            assert(r@ =~= Seq::<char>::empty());
        }
        return Some(r);
    }
    proof {
        assert(last_slash(chars@.subrange(0, k as int)) == Some(k - 1));
    }
    if k == 1 {
        let r = owned("/");
        proof {
            reveal_strlit("/");
            assert(r@ =~= seq!['/']);
        }
        return Some(r);
    }
    let m = trim_slashes(&chars, k - 1);
    proof {
        assert(t.subrange(0, k - 1) =~= chars@.subrange(0, k - 1));
    }
    Some(substring(&chars, 0, m))
}

/// `Path::join`: `name` inside the directory `base`.
pub fn join(base: &String, name: &str) -> (r: String)
    ensures
        r@ == joined(base@, name@),
{
    let b = chars_of(base.as_str());
    let n = chars_of(name);
    if n.len() > 0 && n[0] == '/' {
        return owned(name);
    }
    if b.len() == 0 {
        return owned(name);
    }
    if b[b.len() - 1] == '/' {
        concat(base, name)
    } else {
        let with_slash = concat(base, "/");
        proof {
            reveal_strlit("/");
        }
        let r = concat(&with_slash, name);
        assert(r@ =~= base@ + seq!['/'] + name@);
        r
    }
}

/// Where the last component of `p` starts: after its last `/`.
pub open spec fn component_start(p: Seq<char>) -> int {
    match last_slash(p) {
        Some(i) => i + 1,
        None => 0,
    }
}

/// The index of the last `.` in `s` after index `from + 1` or later.
pub open spec fn last_dot_after(s: Seq<char>, from: int) -> Option<int>
    decreases s.len(),
{
    if s.len() == 0 || s.len() <= from + 1 {
        None
    } else if s.last() == '.' {
        Some(s.len() - 1)
    } else {
        last_dot_after(s.drop_last(), from)
    }
}

/// `p` with the extension of its last component set to `ext`.
pub open spec fn extension_set(p: Seq<char>, ext: Seq<char>) -> Seq<char> {
    let start = component_start(p);
    if start == p.len() {
        p
    } else {
        let dot = match last_dot_after(p, start) {
            Some(j) => j,
            None => p.len() as int,
        };
        p.subrange(0, dot) + seq!['.'] + ext
    }
}

/// `Path::set_extension(ext)`: the last component with its extension (after
/// its last `.` that is not its first character) replaced by `ext`, or
/// `.ext` appended when it has none; an empty last component stays as it is.
pub fn with_extension(path: &String, ext: &str) -> (r: String)
    ensures
        r@ == extension_set(path@, ext@),
{
    let chars = chars_of(path.as_str());
    let ghost s = chars@;
    proof {
        assert(s.subrange(0, s.len() as int) =~= s);
    }
    let mut start = chars.len();
    while start > 0 && chars[start - 1] != '/'
        invariant
            start <= chars.len(),
            s == chars@,
            last_slash(s) == last_slash(s.subrange(0, start as int)),
        decreases start,
    {
        proof {
            assert(s.subrange(0, start as int).drop_last() =~= s.subrange(0, start - 1));
        }
        start = start - 1;
    }
    proof {
        if start > 0 {
            assert(last_slash(s.subrange(0, start as int)) == Some(start - 1));
        } else {
            assert(s.subrange(0, 0) =~= Seq::<char>::empty());
        }
        assert(component_start(s) == start);
    }
    if start == chars.len() {
        return path.clone();
    }
    let mut dot: usize = chars.len();
    let mut k = chars.len();
    while k > start + 1
        invariant_except_break
            dot == chars.len(),
            last_dot_after(s, start as int) == last_dot_after(s.subrange(0, k as int), start as int),
        invariant
            start < k <= chars.len(),
            s == chars@,
        ensures
            dot <= chars.len(),
            last_dot_after(s, start as int) == (if dot == chars.len() {
                None
            } else {
                Some(dot as int)
            }),
        decreases k,
    {
        if chars[k - 1] == '.' {
            dot = k - 1;
            break;
        }
        proof {
            assert(s.subrange(0, k as int).drop_last() =~= s.subrange(0, k - 1));
        }
        k = k - 1;
    }
    let stem = substring(&chars, 0, dot);
    let with_dot = concat(&stem, ".");
    proof {
        reveal_strlit(".");
    }
    let r = concat(&with_dot, ext);
    proof {
        assert(r@ =~= s.subrange(0, dot as int) + seq!['.'] + ext@);
    }
    r
}

/// The directory searched `k`-th for an import: the importing file's own
/// directory, then each search directory in order.
pub open spec fn search_dir(source_dir: Seq<char>, search: Seq<String>, k: int) -> Seq<char> {
    if k == 0 {
        source_dir
    } else {
        search[k - 1]@
    }
}

/// The files an import path may name, in the order they are tried: in each
/// searched directory, `path` with the extension `plc`, then `path` as
/// written.
pub fn import_candidates(path: &str, source_dir: &String, search: &Vec<String>) -> (r: Vec<String>)
    requires
        search@.len() < usize::MAX / 2,
    ensures
        r@.len() == 2 * (search@.len() + 1),
        forall|k: int|
            0 <= k <= search@.len() ==> (#[trigger] r@[2 * k])@ == extension_set(
                joined(search_dir(source_dir@, search@, k), path@),
                "plc"@,
            ),
        forall|k: int|
            0 <= k <= search@.len() ==> (#[trigger] r@[2 * k + 1])@ == joined(search_dir(source_dir@, search@, k), path@),
{
    let mut v: Vec<String> = Vec::new();
    let first = join(source_dir, path);
    v.push(with_extension(&first, "plc"));
    v.push(first);
    let mut i: usize = 0;
    while i < search.len()
        invariant
            i <= search@.len(),
            search@.len() < usize::MAX / 2,
            v@.len() == 2 * (i + 1),
            forall|k: int|
                0 <= k <= i ==> (#[trigger] v@[2 * k])@ == extension_set(
                    joined(search_dir(source_dir@, search@, k), path@),
                    "plc"@,
                ) && v@[2 * k + 1]@ == joined(search_dir(source_dir@, search@, k), path@),
        decreases search@.len() - i,
    {
        let dir = join(&search[i], path);
        v.push(with_extension(&dir, "plc"));
        v.push(dir);
        proof {
            assert forall|k: int| 0 <= k <= i + 1 implies (#[trigger] v@[2 * k])@ == extension_set(
                joined(search_dir(source_dir@, search@, k), path@),
                "plc"@,
            ) && v@[2 * k + 1]@ == joined(search_dir(source_dir@, search@, k), path@) by {
                if k == i + 1 {
                    assert(search_dir(source_dir@, search@, k) == search@[i as int]@);
                }
            }
        }
        i = i + 1;
    }
    assert forall|k: int| 0 <= k <= search@.len() implies (#[trigger] v@[2 * k + 1])@ == joined(
        search_dir(source_dir@, search@, k),
        path@,
    ) by {
        assert(v@[2 * k]@ == extension_set(joined(search_dir(source_dir@, search@, k), path@), "plc"@));
    }
    v
}

} // verus!
