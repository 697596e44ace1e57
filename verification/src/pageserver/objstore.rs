//! Keys of the object store.

use vstd::prelude::*;

use crate::text::{chars_of, ends_with, has_prefix, same_chars, starts_with, string_of};

verus! {

/// Whether two dots stand next to each other somewhere.
pub open spec fn has_dots(s: Seq<char>) -> bool {
    exists|i: int| 0 <= i < s.len() - 1 && #[trigger] s[i] == '.' && s[i + 1] == '.'
}

/// A key that stays below the store's root: no `..` in it and no `/` in front.
pub open spec fn is_valid_key(key: Seq<char>) -> bool {
    !has_dots(key) && !(key.len() > 0 && key[0] == '/')
}

/// Whether the key stays below the store's root.
pub fn valid_key(key: &str) -> (r: bool)
    ensures
        r == is_valid_key(key@),
{
    let c = chars_of(key);
    if c.len() > 0 && c[0] == '/' {
        return false;
    }
    let mut i: usize = 0;
    while c.len() > 1 && i < c.len() - 1
        invariant
            c@ == key@,
            i <= c@.len(),
            !(c@.len() > 0 && c@[0] == '/'),
            forall|j: int| 0 <= j < i && j < c@.len() - 1 ==> !(#[trigger] c@[j] == '.' && c@[j + 1] == '.'),
        decreases c@.len() - i,
    {
        if c[i] == '.' && c[i + 1] == '.' {
            assert(key@[i as int] == '.');
            return false;
        }
        i += 1;
    }
    true
}

/// The last part of a path: what stands behind its last slash.
pub open spec fn file_name(path: Seq<char>) -> Seq<char>
    decreases path.len(),
{
    if path.len() == 0 || path.last() == '/' {
        Seq::empty()
    } else {
        file_name(path.drop_last()).push(path.last())
    }
}

/// A file that is being written: its name is something before `.tmp`.
pub open spec fn in_progress(path: Seq<char>) -> bool {
    file_name(path).len() > 4 && ends_with(file_name(path), ".tmp"@)
}

/// The key that a path below the root stands for: with slashes for backslashes.
pub open spec fn key_of_path(path: Seq<char>) -> Seq<char> {
    Seq::new(
        path.len(),
        |i: int|
            if path[i] == '\\' {
                '/'
            } else {
                path[i]
            },
    )
}

/// How many characters the last part of a path has.
fn name_length(c: &[char]) -> (n: usize)
    ensures
        n <= c@.len(),
        file_name(c@) == c@.skip(c@.len() - n),
{
    let mut n: usize = 0;
    assert(c@.take(c@.len() as int) =~= c@);
    assert(c@.skip(c@.len() as int) =~= Seq::<char>::empty());
    assert(file_name(c@) =~= file_name(c@.take(c@.len() as int)) + c@.skip(c@.len() as int));
    while n < c.len() && c[c.len() - 1 - n] != '/'
        invariant
            n <= c@.len(),
            file_name(c@) == file_name(c@.take(c@.len() - n)) + c@.skip(c@.len() - n),
        decreases c@.len() - n,
    {
        let ghost k = c@.len() - n;
        assert(c@.take(k).last() == c@[k - 1]);
        assert(c@.take(k).drop_last() =~= c@.take(k - 1));
        assert(file_name(c@.take(k)) + c@.skip(k) =~= file_name(c@.take(k - 1)) + c@.skip(k - 1));
        n += 1;
    }
    assert(c@.len() - n > 0 ==> c@.take(c@.len() - n).last() == c@[c@.len() - n - 1]);
    assert(file_name(c@) =~= c@.skip(c@.len() - n));
    n
}

/// The key under which a directory's listing names the file at a path below the
/// root: none for a file that is being written, nor for one that does not start
/// with `prefix`.
pub fn listed_key(path: &str, prefix: &str) -> (r: Option<String>)
    ensures
        match r {
            Some(k) => !in_progress(path@) && starts_with(key_of_path(path@), prefix@) && k@
                == key_of_path(path@),
            None => in_progress(path@) || !starts_with(key_of_path(path@), prefix@),
        },
{
    let c = chars_of(path);
    let n: usize = name_length(c.as_slice());
    if n > 4 {
        let tmp = chars_of(".tmp");
        proof {
            reveal_strlit(".tmp");
        }
        let tail = vstd::slice::slice_subrange(c.as_slice(), c.len() - 4, c.len());
        assert(tail@ =~= file_name(c@).skip(n - 4));
        if same_chars(tail, tmp.as_slice()) {
            return None;
        }
    }
    let mut key: Vec<char> = Vec::new();
    let mut i: usize = 0;
    while i < c.len()
        invariant
            c@ == path@,
            i <= c@.len(),
            key@ == key_of_path(path@).take(i as int),
        decreases c@.len() - i,
    {
        key.push(
            if c[i] == '\\' {
                '/'
            } else {
                c[i]
            },
        );
        assert(key@ =~= key_of_path(path@).take(i + 1));
        i += 1;
    }
    assert(key@ =~= key_of_path(path@));
    if has_prefix(key.as_slice(), chars_of(prefix).as_slice()) {
        Some(string_of(key.as_slice()))
    } else {
        None
    }
}

/// A key with `..` anywhere in it, or with `/` in front, is refused.
pub proof fn keys_do_not_leave_the_root(a: Seq<char>, b: Seq<char>)
    ensures
        !is_valid_key(a + seq!['.', '.'] + b),
        !is_valid_key(seq!['/'] + a),
{
    let k = a + seq!['.', '.'] + b;
    assert(k[a.len() as int] == '.' && k[a.len() as int + 1] == '.');
    assert((seq!['/'] + a)[0] == '/');
}

/// Any other key is accepted: one that does not start with `/` and in which no dot follows
/// a dot.
pub proof fn other_keys_are_accepted(key: Seq<char>)
    requires
        forall|i: int| 0 <= i < key.len() - 1 && #[trigger] key[i] == '.' ==> key[i + 1] != '.',
        key.len() > 0 ==> key[0] != '/',
    ensures
        is_valid_key(key),
{
}

/// The last character of a name is that of the path.
pub(crate) proof fn lemma_file_name_ends(path: Seq<char>)
    ensures
        file_name(path).len() <= path.len(),
        file_name(path).len() > 0 ==> path.len() > 0 && file_name(path).last() == path.last(),
    decreases path.len(),
{
    if path.len() > 0 && path.last() != '/' {
        lemma_file_name_ends(path.drop_last());
    }
}

/// A file's name is what stands behind the last slash of its path.
pub proof fn names_stand_behind_the_last_slash(dir: Seq<char>, name: Seq<char>)
    requires
        forall|i: int| 0 <= i < name.len() ==> #[trigger] name[i] != '/',
    ensures
        file_name(name) == name,
        file_name(dir + seq!['/'] + name) == name,
    decreases name.len(),
{
    let path = dir + seq!['/'] + name;
    if name.len() > 0 {
        let front = name.drop_last();
        names_stand_behind_the_last_slash(dir, front);
        assert(path.drop_last() =~= dir + seq!['/'] + front);
        assert(path.last() == name[name.len() - 1]);
        assert(front.push(name.last()) =~= name);
    } else {
        assert(path.last() == '/');
        assert(name =~= Seq::empty());
    }
}

/// A file whose name is something before `.tmp` is being written, in whichever directory it
/// is; one whose name ends otherwise is not.
pub proof fn unfinished_files_end_in_tmp(dir: Seq<char>, name: Seq<char>)
    requires
        forall|i: int| 0 <= i < name.len() ==> #[trigger] name[i] != '/',
    ensures
        name.len() > 0 ==> in_progress(dir + seq!['/'] + (name + ".tmp"@)),
        !ends_with(name, ".tmp"@) ==> !in_progress(dir + seq!['/'] + name),
        !in_progress(dir + seq!['/'] + ".tmp"@),
{
    reveal_strlit(".tmp");
    let t = name + ".tmp"@;
    assert forall|i: int| 0 <= i < t.len() implies #[trigger] t[i] != '/' by {
        if i >= name.len() {
            assert(t[i] == ".tmp"@[i - name.len()]);
        } else {
            assert(t[i] == name[i]);
        }
    }
    assert(t.skip(t.len() - 4) =~= ".tmp"@);
    names_stand_behind_the_last_slash(dir, t);
    names_stand_behind_the_last_slash(dir, name);
    assert forall|i: int| 0 <= i < ".tmp"@.len() implies #[trigger] ".tmp"@[i] != '/' by {}
    names_stand_behind_the_last_slash(dir, ".tmp"@);
}

/// A key is the path with slashes for backslashes, character by character.
pub proof fn keys_are_paths_with_slashes(path: Seq<char>, i: int)
    requires
        0 <= i < path.len(),
    ensures
        key_of_path(path).len() == path.len(),
        key_of_path(path)[i] != '\\',
        path[i] == '\\' ==> key_of_path(path)[i] == '/',
        path[i] != '\\' ==> key_of_path(path)[i] == path[i],
{
}

} // verus!
