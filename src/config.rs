use vstd::prelude::*;
use vstd::string::*;

verus! {

/// Reads the command line: the input root and the output root, the first
/// two arguments after the program's name.
pub fn read_config(args: &[String]) -> (r: Result<(&str, &str), &'static str>)
    ensures
        r is Err <==> args@.len() < 3,
        r matches Ok((input, output)) ==> input@ == args@[1]@ && output@ == args@[2]@,
{
    if args.len() < 3 {
        return Err("not enough arguments");
    }
    Ok((args[1].as_str(), args[2].as_str()))
}

/// One entry of the input root: its name and whether it is a directory.
pub struct DirEntryInfo {
    pub name: String,
    pub is_dir: bool,
}

/// Where the two required subdirectories stand among the input root's entries.
pub struct InputLayout {
    /// The entry holding one directory per playlist.
    pub playlists: Option<usize>,
    /// The entry holding the media files.
    pub tracks: Option<usize>,
}

impl InputLayout {
    /// Both required subdirectories were found.
    pub fn is_complete(&self) -> (r: bool)
        ensures
            r == (self.playlists is Some && self.tracks is Some),
    {
        self.playlists.is_some() && self.tracks.is_some()
    }
}

/// The index of the last directory among `entries` named `name`.
pub open spec fn role_index(entries: Seq<DirEntryInfo>, name: Seq<char>) -> Option<usize>
    decreases entries.len(),
{
    if entries.len() == 0 {
        None
    } else if entries.last().is_dir && entries.last().name@ == name {
        Some((entries.len() - 1) as usize)
    } else {
        role_index(entries.drop_last(), name)
    }
}

/// Finds the input root's "Playlists" and "Tracks" directories; entries that
/// are not directories, or carry another name, are ignored.
pub fn check_input_correct(entries: &Vec<DirEntryInfo>) -> (r: InputLayout)
    ensures
        r.playlists == role_index(entries@, "Playlists"@),
        r.tracks == role_index(entries@, "Tracks"@),
{
    let playlists_name = String::from_str("Playlists");
    let tracks_name = String::from_str("Tracks");
    let mut playlists: Option<usize> = None;
    let mut tracks: Option<usize> = None;
    let mut i: usize = 0;
    assert(entries@.take(0) =~= Seq::<DirEntryInfo>::empty());
    while i < entries.len()
        invariant
            i <= entries@.len(),
            playlists_name@ == "Playlists"@,
            tracks_name@ == "Tracks"@,
            playlists == role_index(entries@.take(i as int), "Playlists"@),
            tracks == role_index(entries@.take(i as int), "Tracks"@),
        decreases entries@.len() - i,
    {
        proof {
            assert(entries@.take(i + 1).drop_last() =~= entries@.take(i as int));
            assert(entries@.take(i + 1).last() == entries@[i as int]);
        }
        let entry = &entries[i];
        if entry.is_dir && entry.name == playlists_name {
            playlists = Some(i);
        }
        if entry.is_dir && entry.name == tracks_name {
            tracks = Some(i);
        }
        i = i + 1;
    }
    assert(entries@.take(i as int) =~= entries@);
    InputLayout { playlists, tracks }
}

} // verus!
