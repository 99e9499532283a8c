//! Which font faces to try for a family name.

use crate::strings::{chars_of, contains, has, lowercase, same_text};
use vstd::prelude::*;

verus! {

/// A font face: the names of its family, each with whether it is the English one.
#[derive(Debug, Clone)]
pub struct Face {
    pub families: Vec<(String, bool)>,
}

/// One of the names of the face is the one that is wanted.
pub open spec fn is_named(f: Face, want: Seq<char>) -> bool {
    exists|i: int| 0 <= i < f.families@.len() && (#[trigger] f.families@[i]).0@ == want
}

/// The first English name from the `i`th on.
pub open spec fn english_from(f: Face, i: int) -> Option<int>
    decreases f.families@.len() - i,
{
    if i < 0 || i >= f.families@.len() {
        None
    } else if f.families@[i].1 {
        Some(i)
    } else {
        english_from(f, i + 1)
    }
}

/// The name of the face: the English one, else the first, else nothing.
pub open spec fn face_name(f: Face) -> Seq<char> {
    match english_from(f, 0) {
        Some(i) => f.families@[i].0@,
        None => if f.families@.len() > 0 {
            f.families@[0].0@
        } else {
            Seq::empty()
        },
    }
}

/// The name says that the face is a plain one.
pub open spec fn is_plain(f: Face) -> bool {
    let l = lowercase(face_name(f));
    contains(l, "sans"@) || contains(l, "regular"@) || contains(l, "dejavu"@)
}

/// One of the names says that the face has one width.
pub open spec fn is_mono(f: Face) -> bool {
    exists|i: int|
        0 <= i < f.families@.len() && contains(
            lowercase((#[trigger] f.families@[i]).0@),
            "mono"@,
        )
}

/// How well a face fits: exactly, as a plain one, as one of one width.
#[derive(Debug, Clone, Copy, PartialEq, Eq, Structural)]
pub enum Fit {
    Exact,
    Plain,
    Mono,
}

pub open spec fn fits(f: Face, want: Seq<char>, how: Fit) -> bool {
    match how {
        Fit::Exact => is_named(f, want),
        Fit::Plain => is_plain(f),
        Fit::Mono => is_mono(f),
    }
}

/// The faces among the first `n` that fit in a way.
pub open spec fn fitting(faces: Seq<Face>, want: Seq<char>, how: Fit, n: int) -> Seq<int>
    decreases n,
{
    if n <= 0 {
        Seq::empty()
    } else if fits(faces[n - 1], want, how) {
        fitting(faces, want, how, n - 1).push(n - 1)
    } else {
        fitting(faces, want, how, n - 1)
    }
}

/// The faces to try for a family, in turn: those of that name, then plain ones, then
/// ones of one width.
pub open spec fn candidates(faces: Seq<Face>, want: Seq<char>) -> Seq<int> {
    let n = faces.len() as int;
    fitting(faces, want, Fit::Exact, n) + fitting(faces, want, Fit::Plain, n) + fitting(
        faces,
        want,
        Fit::Mono,
        n,
    )
}

fn named(f: &Face, want: &str) -> (r: bool)
    ensures
        r == is_named(*f, want@),
{
    let mut i: usize = 0;
    while i < f.families.len()
        invariant
            i <= f.families.len(),
            forall|k: int| 0 <= k < i ==> (#[trigger] f.families@[k]).0@ != want@,
        decreases f.families.len() - i,
    {
        if same_text(f.families[i].0.as_str(), want) {
            assert(f.families@[i as int].0@ == want@);
            return true;
        }
        i = i + 1;
    }
    false
}

fn plain_name(lower: &str) -> (r: bool)
    ensures
        r == (contains(lower@, "sans"@) || contains(lower@, "regular"@) || contains(
            lower@,
            "dejavu"@,
        )),
{
    let l: Vec<char> = chars_of(lower);
    has(&l, &chars_of("sans")) || has(&l, &chars_of("regular")) || has(&l, &chars_of("dejavu"))
}

fn plain(f: &Face) -> (r: bool)
    ensures
        r == is_plain(*f),
{
    let mut i: usize = 0;
    while i < f.families.len()
        invariant
            i <= f.families.len(),
            english_from(*f, 0) == english_from(*f, i as int),
        decreases f.families.len() - i,
    {
        if f.families[i].1 {
            let lower: String = f.families[i].0.to_lowercase();
            return plain_name(lower.as_str());
        }
        i = i + 1;
    }
    if f.families.len() > 0 {
        let lower: String = f.families[0].0.to_lowercase();
        plain_name(lower.as_str())
    } else {
        let name: &str = "";
        proof {
            reveal_strlit("");
            assert(name@ =~= Seq::empty());
        }
        let lower: String = name.to_lowercase();
        plain_name(lower.as_str())
    }
}

fn mono(f: &Face) -> (r: bool)
    ensures
        r == is_mono(*f),
{
    let want: Vec<char> = chars_of("mono");
    let mut i: usize = 0;
    while i < f.families.len()
        invariant
            i <= f.families.len(),
            want@ == "mono"@,
            forall|k: int|
                0 <= k < i ==> !contains(lowercase((#[trigger] f.families@[k]).0@), "mono"@),
        decreases f.families.len() - i,
    {
        let lower: String = f.families[i].0.to_lowercase();
        if has(&chars_of(lower.as_str()), &want) {
            assert(contains(lowercase(f.families@[i as int].0@), "mono"@));
            return true;
        }
        i = i + 1;
    }
    false
}

/// Lists as integers.
pub open spec fn indices(s: Seq<usize>) -> Seq<int> {
    Seq::new(s.len(), |i: int| s[i] as int)
}

fn push_fitting(faces: &Vec<Face>, want: &str, how: Fit, out: &mut Vec<usize>)
    ensures
        indices(final(out)@) == indices(old(out)@) + fitting(
            faces@,
            want@,
            how,
            faces.len() as int,
        ),
{
    let ghost first = indices(out@);
    let mut i: usize = 0;
    assert(indices(out@) =~= first + fitting(faces@, want@, how, 0));
    while i < faces.len()
        invariant
            i <= faces.len(),
            indices(out@) == first + fitting(faces@, want@, how, i as int),
        decreases faces.len() - i,
    {
        let ok: bool = match how {
            Fit::Exact => named(&faces[i], want),
            Fit::Plain => plain(&faces[i]),
            Fit::Mono => mono(&faces[i]),
        };
        let ghost held = indices(out@);
        let ghost before = fitting(faces@, want@, how, i as int);
        if ok {
            out.push(i);
            proof {
                assert(indices(out@) =~= held.push(i as int));
                assert(held.push(i as int) =~= first + before.push(i as int));
            }
        }
        i = i + 1;
    }
}

/// The faces to try for a family, in turn.
pub fn load_font(faces: &Vec<Face>, family: &str) -> (r: Vec<usize>)
    ensures
        indices(r@) == candidates(faces@, family@),
{
    let mut out: Vec<usize> = Vec::new();
    assert(indices(out@) =~= Seq::empty());
    push_fitting(faces, family, Fit::Exact, &mut out);
    push_fitting(faces, family, Fit::Plain, &mut out);
    push_fitting(faces, family, Fit::Mono, &mut out);
    proof {
        assert(indices(out@) =~= candidates(faces@, family@));
    }
    out
}

} // verus!
