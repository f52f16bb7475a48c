//! Which paths name an image: the extension of the file name, compared
//! without regard to case against the three extensions the browser shows.

use vstd::prelude::*;

verus! {

/// The greatest index at which `c` stands in `s`, or -1 where it does not occur.
pub open spec fn last_index(s: Seq<char>, c: char) -> int
    decreases s.len(),
{
    if s.len() == 0 {
        -1
    } else if s.last() == c {
        s.len() - 1
    } else {
        last_index(s.drop_last(), c)
    }
}

/// The last component of a path: what follows its last `/`, or all of it.
pub open spec fn file_name(path: Seq<char>) -> Seq<char> {
    path.skip(last_index(path, '/') + 1)
}

/// The extension of a path: what follows the last `.` of its file name.
/// A name without a `.`, or whose only `.` is its first character, has none.
pub open spec fn extension(path: Seq<char>) -> Option<Seq<char>> {
    let name = file_name(path);
    let dot = last_index(name, '.');
    if dot <= 0 {
        None
    } else {
        Some(name.skip(dot + 1))
    }
}

/// The lower-case form of an ASCII capital; any other character unchanged.
///
/// No character outside ASCII lower-cases to a letter of the recognised
/// extensions, so folding the ASCII capitals decides the same paths as a full
/// Unicode lower-casing would.
pub open spec fn ascii_lower(c: char) -> char {
    if 'A' <= c && c <= 'Z' {
        ((c as u8 + 32) as u8) as char
    } else {
        c
    }
}

/// `s` with each of its characters lower-cased.
pub open spec fn ascii_lowercase(s: Seq<char>) -> Seq<char> {
    s.map_values(|c: char| ascii_lower(c))
}

/// The extensions of the files that are listed, in lower case.
pub open spec fn image_extensions() -> Seq<Seq<char>> {
    seq![seq!['j', 'p', 'g'], seq!['j', 'p', 'e', 'g'], seq!['p', 'n', 'g']]
}

/// `ext` is, up to case, one of the listed extensions.
pub open spec fn recognized_extension(ext: Seq<char>) -> bool {
    image_extensions().contains(ascii_lowercase(ext))
}

/// `path` has an extension, and it is a recognised one.
pub open spec fn image_path(path: Seq<char>) -> bool {
    match extension(path) {
        Some(ext) => recognized_extension(ext),
        None => false,
    }
}

/// `last_index` finds an occurrence of `c`, and none follows it.
pub proof fn lemma_last_index(s: Seq<char>, c: char)
    ensures
        -1 <= last_index(s, c) < s.len(),
        last_index(s, c) >= 0 ==> s[last_index(s, c)] == c,
        forall|j: int| last_index(s, c) < j < s.len() ==> s[j] != c,
    decreases s.len(),
{
    if s.len() > 0 && s.last() != c {
        lemma_last_index(s.drop_last(), c);
        assert forall|j: int| last_index(s, c) < j < s.len() implies s[j] != c by {
            if j < s.len() - 1 {
                assert(s.drop_last()[j] == s[j]);
            }
        }
    }
}

/// The characters of a text.
pub fn chars_of(s: &str) -> (v: Vec<char>)
    ensures
        v@ == s@,
{
    let mut v: Vec<char> = Vec::new();
    for c in it: s.chars()
        invariant
            v@ == it.seq().take(it.index() as int),
            it.seq() == s@,
    {
        v.push(c);
    }
    v
}

fn to_ascii_lower(c: char) -> (r: char)
    ensures
        r == ascii_lower(c),
{
    if 'A' <= c && c <= 'Z' {
        (c as u8 + 32) as char
    } else {
        c
    }
}

/// Where `c` last stands in `s` at or after `from`.
fn find_last(s: &Vec<char>, from: usize, c: char) -> (r: Option<usize>)
    requires
        from <= s.len(),
    ensures
        match r {
            Some(k) => from <= k < s.len() && last_index(s@.skip(from as int), c) == k - from,
            None => last_index(s@.skip(from as int), c) == -1,
        },
{
    let mut found: Option<usize> = None;
    let mut i: usize = from;
    while i < s.len()
        invariant
            from <= i <= s.len(),
            match found {
                Some(k) => from <= k < i && last_index(s@.subrange(from as int, i as int), c) == k
                    - from,
                None => last_index(s@.subrange(from as int, i as int), c) == -1,
            },
        decreases s.len() - i,
    {
        proof {
            let next = s@.subrange(from as int, i + 1);
            assert(next.drop_last() =~= s@.subrange(from as int, i as int));
        }
        if s[i] == c {
            found = Some(i);
        }
        i = i + 1;
    }
    found
}

/// Whether what stands in `s` from `from` on is a recognised extension.
fn recognized_from(s: &Vec<char>, from: usize) -> (r: bool)
    requires
        from <= s.len(),
    ensures
        r == recognized_extension(s@.skip(from as int)),
{
    let n: usize = s.len() - from;
    let ghost lowered = ascii_lowercase(s@.skip(from as int));
    let ghost known = image_extensions();
    proof {
        assert(lowered.len() == n);
    }
    if n == 3 {
        let a = to_ascii_lower(s[from]);
        let b = to_ascii_lower(s[from + 1]);
        let c = to_ascii_lower(s[from + 2]);
        let r = (a == 'j' && b == 'p' && c == 'g') || (a == 'p' && b == 'n' && c == 'g');
        proof {
            if r {
                assert(lowered =~= known[0] || lowered =~= known[2]);
            }
        }
        r
    } else if n == 4 {
        let a = to_ascii_lower(s[from]);
        let b = to_ascii_lower(s[from + 1]);
        let c = to_ascii_lower(s[from + 2]);
        let d = to_ascii_lower(s[from + 3]);
        let r = a == 'j' && b == 'p' && c == 'e' && d == 'g';
        proof {
            if r {
                assert(lowered =~= known[1]);
            }
        }
        r
    } else {
        false
    }
}

/// Whether `ext` is, up to case, `jpg`, `jpeg` or `png`.
pub fn is_image_extension(ext: &str) -> (r: bool)
    ensures
        r == recognized_extension(ext@),
{
    let chars = chars_of(ext);
    proof {
        assert(chars@.skip(0) =~= ext@);
    }
    recognized_from(&chars, 0)
}

/// Whether `path` names a file with a recognised image extension.
pub fn has_image_extension(path: &str) -> (r: bool)
    ensures
        r == image_path(path@),
{
    let chars = chars_of(path);
    proof {
        assert(chars@.skip(0) =~= path@);
    }
    let start: usize = match find_last(&chars, 0, '/') {
        Some(slash) => slash + 1,
        None => 0,
    };
    match find_last(&chars, start, '.') {
        Some(dot) => {
            if dot > start {
                proof {
                    assert(chars@.skip(start as int).skip(dot - start + 1) =~= chars@.skip(
                        dot + 1,
                    ));
                }
                recognized_from(&chars, dot + 1)
            } else {
                false
            }
        },
        None => false,
    }
}

} // verus!
