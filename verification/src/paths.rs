//! Paths as strings: joining components the way `PathBuf::join` does on
//! Unix, and flattening an idea id into a single path component.

use vstd::prelude::*;
use vstd::string::StrSliceExecFns;

use crate::text::push_char;

verus! {

/// `base` joined with `part`: an absolute `part` replaces `base`; otherwise a
/// `/` goes between them unless `base` is empty or already ends in `/`.
pub open spec fn path_join(base: Seq<char>, part: Seq<char>) -> Seq<char> {
    if part.len() > 0 && part[0] == '/' {
        part
    } else if base.len() == 0 || base.last() == '/' {
        base + part
    } else {
        base + seq!['/'] + part
    }
}

/// `base` joined with `part` (`Path::join` on Unix).
pub fn join_path(base: &str, part: &str) -> (r: String)
    ensures
        r@ == path_join(base@, part@),
        part@.len() > 0 && part@[0] == '/' ==> r@ == part@,
        !(part@.len() > 0 && part@[0] == '/') && base@.len() > 0 && base@.last() != '/' ==> r@ == base@
            + seq!['/'] + part@,
        !(part@.len() > 0 && part@[0] == '/') && (base@.len() == 0 || base@.last() == '/') ==> r@
            == base@ + part@,
{
    proof {
        law_join_separates_once(base@, part@);
    }
    let pn = part.unicode_len();
    if pn > 0 && part.get_char(0) == '/' {
        return String::from_str(part);
    }
    let bn = base.unicode_len();
    let mut r = String::from_str(base);
    if bn > 0 && base.get_char(bn - 1) != '/' {
        push_char(&mut r, '/');
    }
    r.append(part);
    r
}

/// `id` with every `/` replaced by `__`, so that it names one directory.
pub open spec fn flatten_id(id: Seq<char>) -> Seq<char>
    decreases id.len(),
{
    if id.len() == 0 {
        Seq::empty()
    } else if id.last() == '/' {
        flatten_id(id.drop_last()) + seq!['_', '_']
    } else {
        flatten_id(id.drop_last()).push(id.last())
    }
}

/// A flattened id holds no `/`.
pub proof fn lemma_flatten_id_has_no_slash(id: Seq<char>)
    ensures
        !flatten_id(id).contains('/'),
    decreases id.len(),
{
    if id.len() > 0 {
        lemma_flatten_id_has_no_slash(id.drop_last());
        let f = flatten_id(id.drop_last());
        if id.last() == '/' {
            assert forall|k: int| 0 <= k < flatten_id(id).len() implies flatten_id(id)[k] != '/' by {
                if k < f.len() {
                    assert(flatten_id(id)[k] == f[k]);
                }
            }
        } else {
            assert forall|k: int| 0 <= k < flatten_id(id).len() implies flatten_id(id)[k] != '/' by {
                if k < f.len() {
                    assert(flatten_id(id)[k] == f[k]);
                }
            }
        }
    }
}

/// `id` with every `/` replaced by `__` (`str::replace('/', "__")`).
pub fn flatten(id: &str) -> (r: String)
    ensures
        r@ == flatten_id(id@),
{
    let n = id.unicode_len();
    let mut r = String::new();
    let mut i: usize = 0;
    while i < n
        invariant
            n == id@.len(),
            i <= n,
            r@ == flatten_id(id@.take(i as int)),
        decreases n - i,
    {
        let c = id.get_char(i);
        proof {
            assert(id@.take(i + 1).drop_last() =~= id@.take(i as int));
        }
        if c == '/' {
            push_char(&mut r, '_');
            push_char(&mut r, '_');
            assert(r@ =~= flatten_id(id@.take(i as int)) + seq!['_', '_']);
        } else {
            push_char(&mut r, c);
        }
        i = i + 1;
    }
    assert(id@.take(n as int) =~= id@);
    r
}

/// A flattened id joined onto a directory names an entry directly inside
/// that directory: the id lands as one component, after at most a `/`.
pub proof fn law_flattened_id_is_one_component(dir: Seq<char>, id: Seq<char>)
    ensures
        !flatten_id(id).contains('/'),
        path_join(dir, flatten_id(id)) == dir + flatten_id(id) || path_join(dir, flatten_id(id)) == dir
            + seq!['/'] + flatten_id(id),
{
    lemma_flatten_id_has_no_slash(id);
    let f = flatten_id(id);
    if f.len() > 0 {
        assert(f.contains(f[0]));
    }
}

/// Joining a relative part onto a directory puts exactly one `/` between
/// them: none is added when the directory is empty or already ends in `/`,
/// one is added otherwise, whatever the directory's last character. An
/// absolute part replaces the directory.
pub proof fn law_join_separates_once(base: Seq<char>, part: Seq<char>)
    ensures
        part.len() > 0 && part[0] == '/' ==> path_join(base, part) == part,
        !(part.len() > 0 && part[0] == '/') && base.len() > 0 && base.last() != '/' ==> path_join(
            base,
            part,
        ) == base + seq!['/'] + part,
        !(part.len() > 0 && part[0] == '/') && (base.len() == 0 || base.last() == '/') ==> path_join(
            base,
            part,
        ) == base + part,
        !(part.len() > 0 && part[0] == '/') ==> path_join(base, part).take(base.len() as int) == base
            && path_join(base, part).skip(path_join(base, part).len() - part.len()) == part,
{
    let r = path_join(base, part);
    if !(part.len() > 0 && part[0] == '/') {
        if base.len() == 0 || base.last() == '/' {
            assert(r.take(base.len() as int) =~= base);
            assert(r.skip(r.len() - part.len()) =~= part);
        } else {
            assert(r.take(base.len() as int) =~= base);
            assert(r.skip(r.len() - part.len()) =~= part);
        }
    }
}

} // verus!
