use vstd::prelude::*;
use vstd::string::*;
use crate::playlist::Playlist;

verus! {

/// One file to place in a playlist's output directory.
pub struct CopyStep {
    /// The file's name inside the playlist's directory.
    pub file_name: String,
    /// Where the track's bytes are read from.
    pub source: String,
}

/// The decimal digits of `n`, most significant first.
pub open spec fn decimal_text(n: nat) -> Seq<char>
    decreases n,
{
    if n < 10 {
        seq![(n + '0' as nat) as char]
    } else {
        decimal_text(n / 10).push(((n % 10) + '0' as nat) as char)
    }
}

/// A title with every path separator `/` replaced by `_`.
pub open spec fn sanitized(title: Seq<char>) -> Seq<char> {
    title.map_values(|c: char| if c == '/' { '_' } else { c })
}

/// The output file name of the track `title` at `position`:
/// `<position>_<sanitized title>.mp3`.
pub open spec fn file_name_spec(position: usize, title: Seq<char>) -> Seq<char> {
    decimal_text(position as nat) + "_"@ + sanitized(title) + ".mp3"@
}

/// Relies on `usize`'s `to_string`: its decimal digits.
#[verifier::external_body]
fn decimal(n: usize) -> (r: String)
    ensures
        r@ == decimal_text(n as nat),
{
    n.to_string()
}

/// Relies on `str::replace`: every `/` replaced by `_`.
#[verifier::external_body]
fn replace_separators(s: &str) -> (r: String)
    ensures
        r@ == sanitized(s@),
{
    s.replace('/', "_")
}

/// The output file name of a track at a position.
pub fn file_name(position: usize, title: &String) -> (r: String)
    ensures
        r@ == file_name_spec(position, title@),
{
    let name = decimal(position).concat("_");
    let name = name.concat(replace_separators(title.as_str()).as_str());
    name.concat(".mp3")
}

/// The files that materializing `playlist` places, in ascending position.
pub fn plan(playlist: &Playlist) -> (r: Vec<CopyStep>)
    requires
        playlist.wf(),
    ensures
        r@.len() == playlist.entries().len(),
        forall|i: int| 0 <= i < r@.len() ==> {
            &&& (#[trigger] r@[i]).file_name@ == file_name_spec(
                playlist.entries()[i].0,
                playlist.entries()[i].1.title,
            )
            &&& r@[i].source@ == playlist.entries()[i].1.source
        },
{
    let mut steps: Vec<CopyStep> = Vec::new();
    let mut i: usize = 0;
    while i < playlist.len()
        invariant
            i <= playlist.entries().len(),
            steps@.len() == i,
            forall|j: int| 0 <= j < i ==> {
                &&& (#[trigger] steps@[j]).file_name@ == file_name_spec(
                    playlist.entries()[j].0,
                    playlist.entries()[j].1.title,
                )
                &&& steps@[j].source@ == playlist.entries()[j].1.source
            },
        decreases playlist.entries().len() - i,
    {
        let track = playlist.track_at(i);
        let step = CopyStep {
            file_name: file_name(playlist.position_at(i), &track.title),
            source: track.source.clone(),
        };
        steps.push(step);
        i = i + 1;
    }
    steps
}

/// The file names of a plan.
pub open spec fn plan_names(steps: Seq<CopyStep>) -> Seq<Seq<char>> {
    steps.map_values(|s: CopyStep| s.file_name@)
}

/// The names of a list of present files.
pub open spec fn name_set(present: Seq<String>) -> Set<Seq<char>> {
    present.map_values(|s: String| s@).to_set()
}

fn is_present(name: &String, present: &Vec<String>) -> (r: bool)
    ensures
        r == name_set(present@).contains(name@),
{
    let mut i: usize = 0;
    while i < present.len()
        invariant
            i <= present@.len(),
            forall|j: int| 0 <= j < i ==> present@[j]@ != name@,
        decreases present@.len() - i,
    {
        if present[i] == *name {
            assert(present@.map_values(|s: String| s@)[i as int] == name@);
            return true;
        }
        i = i + 1;
    }
    assert(!present@.map_values(|s: String| s@).contains(name@));
    false
}

/// The steps of a plan still to copy, given the files already present in the
/// destination directory: those whose file is absent, in plan order. A file
/// already there is never copied again.
pub fn pending(steps: &Vec<CopyStep>, present: &Vec<String>) -> (r: Vec<usize>)
    ensures
        forall|a: int, b: int| 0 <= a < b < r@.len() ==> r@[a] < r@[b],
        forall|a: int| 0 <= a < r@.len() ==> (#[trigger] r@[a]) < steps@.len(),
        forall|i: int| 0 <= i < steps@.len() ==> (r@.contains(i as usize) <==> !name_set(present@).contains(
            #[trigger] steps@[i].file_name@,
        )),
{
    let mut r: Vec<usize> = Vec::new();
    let mut i: usize = 0;
    while i < steps.len()
        invariant
            i <= steps@.len(),
            forall|a: int, b: int| 0 <= a < b < r@.len() ==> r@[a] < r@[b],
            forall|a: int| 0 <= a < r@.len() ==> (#[trigger] r@[a]) < i,
            forall|j: int| 0 <= j < i ==> (r@.contains(j as usize) <==> !name_set(present@).contains(
                #[trigger] steps@[j].file_name@,
            )),
        decreases steps@.len() - i,
    {
        let ghost r0 = r@;
        let absent = !is_present(&steps[i].file_name, present);
        if absent {
            r.push(i);
            assert(r@[r@.len() - 1] == i);
        }
        assert forall|j: int| 0 <= j <= i implies (r@.contains(j as usize) <==> !name_set(present@).contains(
            #[trigger] steps@[j].file_name@)) by {
            if r@.contains(j as usize) {
                let a = choose|a: int| 0 <= a < r@.len() && r@[a] == j as usize;
                if a < r0.len() {
                    assert(r0[a] == j as usize);
                }
            }
            if j < i && r0.contains(j as usize) {
                let a = choose|a: int| 0 <= a < r0.len() && r0[a] == j as usize;
                assert(r@[a] == j as usize);
            }
        }
        i = i + 1;
    }
    r
}

/// The names present in a destination directory after every step of a plan
/// whose file was absent has been copied.
pub open spec fn after_copy(present: Set<Seq<char>>, names: Seq<Seq<char>>) -> Set<Seq<char>> {
    present.union(names.to_set())
}

/// Materializing a playlist a second time into the same directory finds
/// every file of its plan in place, so nothing is pending, and the
/// directory holds the same names as after the first time.
pub proof fn lemma_materialize_idempotent(present: Set<Seq<char>>, steps: Seq<CopyStep>)
    ensures
        forall|i: int| 0 <= i < steps.len() ==> after_copy(present, plan_names(steps)).contains(
            #[trigger] steps[i].file_name@,
        ),
        after_copy(after_copy(present, plan_names(steps)), plan_names(steps)) == after_copy(
            present,
            plan_names(steps),
        ),
{
    let names = plan_names(steps);
    assert forall|i: int| 0 <= i < steps.len() implies after_copy(present, names).contains(
        #[trigger] steps[i].file_name@,
    ) by {
        assert(names[i] == steps[i].file_name@);
        assert(names.to_set().contains(names[i]));
    }
    assert(after_copy(after_copy(present, names), names) =~= after_copy(present, names));
}

} // verus!
