//! A shell session over a volume: a current directory, and the commands
//! `ls`, `cd` and `cat`.

use std::rc::Rc;
use vstd::prelude::*;
use vstd::string::StringExecFns;
use vstd::string::StringSliceAdditionalSpecFns;
use crate::file_system::path::str_is;
use crate::file_system::{
    info_views, list_directory_entries, Fat32FileSystem, FileInfo, FileInfoView, FsError,
};

verus! {

/// Whether a listing leaves the entry out: `.` and `..` are not shown.
pub open spec fn is_hidden(file: FileInfoView) -> bool {
    file.name == seq!['.'] || file.name == seq!['.', '.']
}

/// The entries of a listing that are shown.
pub open spec fn shown_entries(files: Seq<FileInfoView>) -> Seq<FileInfoView> {
    files.filter(|file: FileInfoView| !is_hidden(file))
}

/// What `ls` writes for one entry: nothing for a hidden one, else its kind,
/// its name, and a space after each.
pub open spec fn entry_text(file: FileInfoView) -> Seq<char> {
    if is_hidden(file) {
        Seq::empty()
    } else if file.is_directory {
        seq!['[', 'D', 'I', 'R', ']', ' '] + file.name + seq![' ']
    } else {
        seq!['[', 'F', 'I', 'L', 'E', ']', ' '] + file.name + seq![' ']
    }
}

/// What `ls` writes before the end of the line: the prompt, then each entry.
pub open spec fn entries_text(files: Seq<FileInfoView>) -> Seq<char>
    decreases files.len(),
{
    if files.len() == 0 {
        seq!['>', ' ']
    } else {
        entries_text(files.drop_last()) + entry_text(files.last())
    }
}

/// The line that `ls` writes for a listing.
pub open spec fn listing_text(files: Seq<FileInfoView>) -> Seq<char> {
    entries_text(files) + seq!['\n']
}

/// A session of the shell: the volume, shared, and the current directory.
pub struct ShellSession {
    /// The volume, shared with whoever else reads it.
    pub fs: Rc<Fat32FileSystem>,
    /// The cluster of the current directory.
    pub current_cluster: u32,
}

impl ShellSession {
    /// The volume that the session works on.
    pub open spec fn volume(&self) -> Fat32FileSystem {
        *self.fs
    }

    /// Starts a session in the root directory.
    pub fn new(fs: Rc<Fat32FileSystem>) -> (session: ShellSession)
        ensures
            session.volume() == *fs,
            session.current_cluster == fs.root_cluster,
    {
        let current_cluster = fs.root_cluster;
        ShellSession { fs, current_cluster }
    }

    /// The cluster that `ls` lists: the current directory without a path,
    /// else the first cluster of what the path names.
    pub open spec fn ls_target(&self, path: Option<Seq<u8>>) -> Result<u32, FsError> {
        match path {
            None => Ok(self.current_cluster),
            Some(p) => match self.volume().resolve_path(p, Some(self.current_cluster)) {
                Err(e) => Err(e),
                Ok(None) => Err(FsError::EntryNotFound),
                Ok(Some(file)) => Ok(file.start_cluster),
            },
        }
    }

    /// The line that `ls` writes, or why it writes none.
    pub open spec fn ls_text(&self, path: Option<Seq<u8>>) -> Result<Seq<char>, FsError> {
        match self.ls_target(path) {
            Err(e) => Err(e),
            Ok(cluster) => if self.volume().cluster_in_image(cluster) {
                Ok(listing_text(self.volume().directory(cluster)))
            } else {
                Err(FsError::OutOfBounds)
            },
        }
    }

    /// Lists a directory as one line of text: the current directory
    /// without a path, else the one that the path names. `.` and `..` are
    /// left out.
    ///
    /// Fails with `EntryNotFound` where the path names nothing, and with
    /// `OutOfBounds` where a directory to read does not lie inside the
    /// image.
    pub fn ls(&self, path: Option<&str>) -> (r: Result<String, FsError>)
        ensures
            self.ls_text(
                match path {
                    Some(p) => Some(p.spec_bytes()),
                    None => None,
                },
            ) == (match r {
                Ok(line) => Ok(line@),
                Err(e) => Err(e),
            }),
    {
        let cluster: u32 = match path {
            Some(p) => {
                match self.fs.parse_path(p, Some(self.current_cluster)) {
                    Err(e) => {
                        return Err(e);
                    },
                    Ok(None) => {
                        return Err(FsError::EntryNotFound);
                    },
                    Ok(Some(file)) => file.start_cluster,
                }
            },
            None => self.current_cluster,
        };
        let files = match list_directory_entries(&self.fs, cluster) {
            Ok(files) => files,
            Err(e) => {
                return Err(e);
            },
        };
        let ghost views = info_views(files@);
        let mut line = String::from_str("> ");
        proof {
            reveal_strlit("> ");
            reveal_strlit(".");
            reveal_strlit("..");
            reveal_strlit("[DIR] ");
            reveal_strlit("[FILE] ");
            reveal_strlit(" ");
            reveal_strlit("\n");
            assert("> "@ =~= seq!['>', ' ']);
            assert("."@ =~= seq!['.']);
            assert(".."@ =~= seq!['.', '.']);
            assert("[DIR] "@ =~= seq!['[', 'D', 'I', 'R', ']', ' ']);
            assert("[FILE] "@ =~= seq!['[', 'F', 'I', 'L', 'E', ']', ' ']);
            assert(" "@ =~= seq![' ']);
            assert("\n"@ =~= seq!['\n']);
            assert(views.take(0) =~= Seq::empty());
        }
        let mut i: usize = 0;
        while i < files.len()
            invariant
                i <= files@.len(),
                views == info_views(files@),
                line@ == entries_text(views.take(i as int)),
                "."@ == seq!['.'],
                ".."@ == seq!['.', '.'],
                "[DIR] "@ == seq!['[', 'D', 'I', 'R', ']', ' '],
                "[FILE] "@ == seq!['[', 'F', 'I', 'L', 'E', ']', ' '],
                " "@ == seq![' '],
            decreases files@.len() - i,
        {
            assert(views.take(i + 1).drop_last() =~= views.take(i as int));
            assert(views.take(i + 1).last() == files@[i as int]@);
            let f = &files[i];
            if !(str_is(f.name.as_str(), ".") || str_is(f.name.as_str(), "..")) {
                let ghost before = line@;
                line.append(if f.is_directory {
                    "[DIR] "
                } else {
                    "[FILE] "
                });
                line.append(f.name.as_str());
                line.append(" ");
                assert(line@ =~= before + entry_text(f@));
            } else {
                assert(line@ + entry_text(f@) =~= line@);
            }
            i += 1;
        }
        assert(views.take(i as int) =~= views);
        line.append("\n");
        Ok(line)
    }

    /// What `cd` does: the cluster it moves to, or why it does not move.
    pub open spec fn cd_target(&self, path: Seq<u8>) -> Result<u32, FsError> {
        match self.volume().resolve_path(path, Some(self.current_cluster)) {
            Err(e) => Err(e),
            Ok(None) => Err(FsError::EntryNotFound),
            Ok(Some(file)) => if file.is_directory {
                Ok(file.start_cluster)
            } else {
                Err(FsError::NotADirectory)
            },
        }
    }

    /// Moves to the directory that `path` names, from the root for an
    /// absolute path, else from the current directory.
    ///
    /// Fails with `EntryNotFound` where the path names nothing,
    /// `NotADirectory` where it names a file, and `OutOfBounds` where a
    /// directory on the way does not lie inside the image; a session that
    /// fails stays where it is.
    pub fn cd(&mut self, path: &str) -> (r: Result<(), FsError>)
        ensures
            final(self).volume() == old(self).volume(),
            match r {
                Ok(_) => old(self).cd_target(path.spec_bytes()) == Ok::<u32, FsError>(
                    final(self).current_cluster,
                ),
                Err(e) => old(self).cd_target(path.spec_bytes()) == Err::<u32, FsError>(e)
                    && final(self).current_cluster == old(self).current_cluster,
            },
    {
        let file = match self.fs.parse_path(path, Some(self.current_cluster)) {
            Err(e) => {
                return Err(e);
            },
            Ok(None) => {
                return Err(FsError::EntryNotFound);
            },
            Ok(Some(file)) => file,
        };
        if !file.is_directory {
            return Err(FsError::NotADirectory);
        }
        self.current_cluster = file.start_cluster;
        Ok(())
    }

    /// The entries of the current directory, without `.` and `..`.
    ///
    /// Fails with `OutOfBounds` exactly when the current directory does
    /// not lie inside the image.
    pub fn ls_entries(&self) -> (r: Result<Vec<FileInfo>, FsError>)
        ensures
            match r {
                Ok(files) => self.volume().cluster_in_image(self.current_cluster) && info_views(
                    files@,
                ) == shown_entries(self.volume().directory(self.current_cluster)),
                Err(e) => e == FsError::OutOfBounds && !self.volume().cluster_in_image(
                    self.current_cluster,
                ),
            },
    {
        let files = match list_directory_entries(&self.fs, self.current_cluster) {
            Ok(files) => files,
            Err(e) => {
                return Err(e);
            },
        };
        let ghost views = info_views(files@);
        let ghost shown = |file: FileInfoView| !is_hidden(file);
        let mut kept: Vec<FileInfo> = Vec::new();
        let mut i: usize = 0;
        proof {
            reveal_strlit(".");
            reveal_strlit("..");
            assert("."@ =~= seq!['.']);
            assert(".."@ =~= seq!['.', '.']);
            assert(views.take(0) =~= Seq::empty());
            reveal(Seq::filter);
            assert(info_views(kept@) =~= views.take(0).filter(shown));
        }
        while i < files.len()
            invariant
                i <= files@.len(),
                views == info_views(files@),
                shown == |file: FileInfoView| !is_hidden(file),
                info_views(kept@) == views.take(i as int).filter(shown),
                "."@ == seq!['.'],
                ".."@ == seq!['.', '.'],
            decreases files@.len() - i,
        {
            proof {
                reveal(Seq::filter);
                assert(views.take(i + 1).drop_last() =~= views.take(i as int));
                assert(views.take(i + 1).last() == files@[i as int]@);
            }
            let f = &files[i];
            if !(str_is(f.name.as_str(), ".") || str_is(f.name.as_str(), "..")) {
                let ghost before = info_views(kept@);
                kept.push(f.clone());
                assert(info_views(kept@) =~= before.push(f@));
            }
            i += 1;
        }
        assert(views.take(i as int) =~= views);
        Ok(kept)
    }

    /// The text of the file that `path` names, walking from the root
    /// directory; it fails as [`Fat32FileSystem::read_file`] does.
    pub fn cat(&self, path: &str) -> (r: Result<String, FsError>)
        ensures
            self.volume().file_text(path.spec_bytes(), None) == (match r {
                Ok(text) => Ok(text@),
                Err(e) => Err(e),
            }),
    {
        self.fs.read_file(path, None)
    }
}

} // verus!
