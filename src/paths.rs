//! Where the managed copy of a script lives.
use vstd::prelude::*;
use crate::text::{chars_of, push_all};

verus! {

/// The part of a path after its last `/`.
pub open spec fn file_name(path: Seq<char>) -> Seq<char>
    decreases path.len(),
{
    if path.len() == 0 {
        path
    } else if path.last() == '/' {
        Seq::empty()
    } else {
        file_name(path.drop_last()).push(path.last())
    }
}

/// The number of characters of a file name before its first `.`.
pub open spec fn stem_len(file: Seq<char>) -> nat
    decreases file.len(),
{
    if file.len() == 0 || file[0] == '.' {
        0
    } else {
        1 + stem_len(file.skip(1))
    }
}

/// A file name up to its first `.`: the name a script is known by.
pub open spec fn stem(file: Seq<char>) -> Seq<char> {
    file.take(stem_len(file) as int)
}

/// A file name from its first `.` on, or nothing where it has no `.`.
pub open spec fn extension(file: Seq<char>) -> Seq<char> {
    file.skip(stem_len(file) as int)
}

/// `<dir>/<name>/<file>`: the managed copy of a script sits in a directory
/// named after the script.
pub open spec fn managed_path(dir: Seq<char>, name: Seq<char>, file: Seq<char>) -> Seq<char> {
    dir + seq!['/'] + name + seq!['/'] + file
}

/// A script name: non-empty, on one line, and usable as a directory name.
pub open spec fn is_script_name(name: Seq<char>) -> bool {
    name.len() > 0 && forall|i: int|
        0 <= i < name.len() ==> #[trigger] name[i] != '/' && name[i] != '\n'
}

proof fn lemma_stem_len(file: Seq<char>)
    ensures
        stem_len(file) <= file.len(),
        forall|i: int| 0 <= i < stem_len(file) ==> #[trigger] file[i] != '.',
        stem_len(file) < file.len() ==> file[stem_len(file) as int] == '.',
    decreases file.len(),
{
    if file.len() > 0 && file[0] != '.' {
        lemma_stem_len(file.skip(1));
        assert forall|i: int| 0 <= i < stem_len(file) implies #[trigger] file[i] != '.' by {
            if i > 0 {
                assert(file[i] == file.skip(1)[i - 1]);
            }
        }
    }
}

/// The file name of a path.
pub fn file_name_of(path: &Vec<char>) -> (r: Vec<char>)
    ensures
        r@ == file_name(path@),
{
    let mut i: usize = path.len();
    assert(path@.take(i as int) =~= path@);
    while i > 0 && path[i - 1] != '/'
        invariant
            i <= path@.len(),
            file_name(path@) == file_name(path@.take(i as int)) + path@.subrange(
                i as int,
                path@.len() as int,
            ),
        decreases i,
    {
        assert(path@.take(i as int).drop_last() =~= path@.take(i - 1));
        assert(file_name(path@.take(i as int)) == file_name(path@.take(i - 1)).push(path@[i - 1]));
        assert(file_name(path@.take(i - 1)).push(path@[i - 1]) + path@.subrange(
            i as int,
            path@.len() as int,
        ) =~= file_name(path@.take(i - 1)) + path@.subrange(i - 1, path@.len() as int));
        i = i - 1;
    }
    assert(file_name(path@.take(i as int)) =~= Seq::<char>::empty());
    let mut r: Vec<char> = Vec::new();
    let mut k: usize = i;
    while k < path.len()
        invariant
            i <= k <= path@.len(),
            r@ == path@.subrange(i as int, k as int),
        decreases path@.len() - k,
    {
        r.push(path[k]);
        k = k + 1;
        assert(r@ =~= path@.subrange(i as int, k as int));
    }
    assert(file_name(path@) =~= r@);
    r
}

/// The stem and the extension of a file name.
pub fn split_stem(file: &Vec<char>) -> (r: (Vec<char>, Vec<char>))
    ensures
        r.0@ == stem(file@),
        r.1@ == extension(file@),
{
    proof {
        lemma_stem_len(file@);
    }
    let mut i: usize = 0;
    assert(file@.skip(0) =~= file@);
    while i < file.len() && file[i] != '.'
        invariant
            i <= file@.len(),
            stem_len(file@) == i + stem_len(file@.skip(i as int)),
        decreases file@.len() - i,
    {
        assert(file@.skip(i as int).skip(1) =~= file@.skip(i + 1));
        i = i + 1;
    }
    assert(stem_len(file@) == i);
    let mut s: Vec<char> = Vec::new();
    let mut e: Vec<char> = Vec::new();
    let mut k: usize = 0;
    while k < file.len()
        invariant
            i <= file@.len(),
            k <= file@.len(),
            k <= i ==> s@ == file@.subrange(0, k as int) && e@.len() == 0,
            k > i ==> s@ == file@.subrange(0, i as int) && e@ == file@.subrange(
                i as int,
                k as int,
            ),
        decreases file@.len() - k,
    {
        if k < i {
            s.push(file[k]);
        } else {
            e.push(file[k]);
        }
        k = k + 1;
        assert(k <= i ==> s@ =~= file@.subrange(0, k as int));
        assert(k > i ==> e@ =~= file@.subrange(i as int, k as int));
        assert(k > i ==> s@ =~= file@.subrange(0, i as int));
    }
    assert(stem(file@) =~= s@) by {
        if i == file@.len() {
            assert(s@ =~= file@.subrange(0, k as int));
        }
    }
    assert(extension(file@) =~= e@) by {
        if i == file@.len() {
            assert(e@.len() == 0);
        }
    }
    (s, e)
}

/// The managed path of a script.
pub fn managed_path_of(dir: &str, name: &Vec<char>, file: &Vec<char>) -> (r: Vec<char>)
    ensures
        r@ == managed_path(dir@, name@, file@),
{
    let mut out = chars_of(dir);
    out.push('/');
    push_all(&mut out, name);
    out.push('/');
    push_all(&mut out, file);
    assert(out@ =~= managed_path(dir@, name@, file@));
    out
}

/// Whether a name can be given to a script.
pub fn valid_script_name(name: &Vec<char>) -> (r: bool)
    ensures
        r == is_script_name(name@),
{
    if name.len() == 0 {
        return false;
    }
    let mut i: usize = 0;
    while i < name.len()
        invariant
            i <= name@.len(),
            forall|j: int| 0 <= j < i ==> #[trigger] name@[j] != '/' && name@[j] != '\n',
        decreases name@.len() - i,
    {
        if name[i] == '/' || name[i] == '\n' {
            return false;
        }
        i = i + 1;
    }
    true
}

} // verus!
