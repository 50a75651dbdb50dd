//! The workspace of a build: the configuration, the source files found under the
//! source folder, and the entry file.
use vstd::prelude::*;

use crate::config::{BuildMode, Config, ConfigView};

verus! {

/// The files of a project, as the build sees them.
#[derive(Debug)]
pub struct Workspace {
    pub source_files: Vec<String>,
    pub entry: String,
    pub config: Config,
}

/// Why a workspace could not be set up.
#[derive(Debug)]
pub enum WorkspaceError {
    /// The source folder could not be scanned; the message says why.
    SourceFiles(String),
    /// The entry file named in the configuration does not exist.
    MissingEntryFile(String),
    /// The project is an executable and names no entry file.
    NoEntry,
}

pub enum WorkspaceErrorView {
    SourceFiles(Seq<char>),
    MissingEntryFile(Seq<char>),
    NoEntry,
}

impl View for WorkspaceError {
    type V = WorkspaceErrorView;

    open spec fn view(&self) -> WorkspaceErrorView {
        match self {
            WorkspaceError::SourceFiles(m) => WorkspaceErrorView::SourceFiles(m@),
            WorkspaceError::MissingEntryFile(e) => WorkspaceErrorView::MissingEntryFile(e@),
            WorkspaceError::NoEntry => WorkspaceErrorView::NoEntry,
        }
    }
}

/// What setting up a workspace gives: the scan of the source folder decides
/// first; then an executable needs an entry file that exists. Other projects
/// have an empty entry.
pub open spec fn workspace_outcome(
    config: ConfigView,
    scan: Result<Seq<Seq<char>>, Seq<char>>,
    entry_exists: bool,
) -> Result<(Seq<Seq<char>>, Seq<char>), WorkspaceErrorView> {
    match scan {
        Err(m) => Err(WorkspaceErrorView::SourceFiles(m)),
        Ok(files) => {
            if config.project.mode == BuildMode::Executable {
                match config.project.entry {
                    Some(e) => if entry_exists {
                        Ok((files, e))
                    } else {
                        Err(WorkspaceErrorView::MissingEntryFile(e))
                    },
                    None => Err(WorkspaceErrorView::NoEntry),
                }
            } else {
                Ok((files, Seq::empty()))
            }
        },
    }
}

impl Workspace {
    /// Sets up the workspace of `config`, given the scan of its source folder
    /// (the files found, or the reason the scan failed) and whether the entry
    /// file that the configuration names exists.
    pub fn build(config: Config, scan: Result<Vec<String>, String>, entry_exists: bool) -> (r: Result<
        Workspace,
        WorkspaceError,
    >)
        ensures
            match workspace_outcome(
                config@,
                match scan {
                    Ok(v) => Ok(v.deep_view()),
                    Err(m) => Err(m@),
                },
                entry_exists,
            ) {
                Ok((files, e)) => r matches Ok(w) && w.source_files.deep_view() == files && w.entry@ == e
                    && w.config@ == config@,
                Err(e) => r matches Err(x) && x@ == e,
            },
    {
        let source_files = match scan {
            Ok(files) => files,
            Err(m) => return Err(WorkspaceError::SourceFiles(m)),
        };
        let entry = if config.project.mode == BuildMode::Executable {
            match &config.project.entry {
                Some(e) => {
                    if !entry_exists {
                        return Err(WorkspaceError::MissingEntryFile(e.clone()));
                    }
                    e.clone()
                },
                None => return Err(WorkspaceError::NoEntry),
            }
        } else {
            String::new()
        };
        Ok(Workspace { source_files, entry, config })
    }
}

} // verus!
