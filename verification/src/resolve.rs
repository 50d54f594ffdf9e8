//! Resolving the configured directories.
//!
//! The source has to exist, so it is looked for before anything is created: keep
//! and trash may lie below it, and creating them would create it too. The file
//! system is reached one action at a time, as everywhere.

use crate::config::{Config, RawConfig};
use crate::moves::{system_text, worded};
use crate::unix_path::{lossy, shown};
use vstd::prelude::*;

verus! {

/// Why the directories could not be resolved.
#[derive(Debug)]
pub enum ResolveError {
    /// A directory could not be created.
    NotCreated(std::io::Error),
    /// A directory has no canonical path.
    NotCanonical { dir: Vec<u8>, error: std::io::Error },
}

impl ResolveError {
    /// What the system reported.
    pub open spec fn cause(self) -> std::io::Error {
        match self {
            ResolveError::NotCreated(error) => error,
            ResolveError::NotCanonical { error, .. } => error,
        }
    }

    /// The sentence for this error, around the system's wording.
    pub open spec fn sentence(self, detail: Seq<char>) -> Seq<char> {
        match self {
            ResolveError::NotCreated(_) => detail,
            ResolveError::NotCanonical { dir, .. } => "cannot canonicalize "@ + shown(dir@)
                + ": "@ + detail,
        }
    }

    /// Whether `text` is the sentence for this error, around a wording that the
    /// system has for it.
    pub open spec fn is_told(self, text: Seq<char>) -> bool {
        exists|detail: Seq<char>|
            worded(self.cause(), detail) && text == #[trigger] self.sentence(detail)
    }

    /// The sentence for this error, around the system's wording.
    pub fn message_with(&self, detail: &str) -> (r: String)
        ensures
            r@ == self.sentence(detail@),
    {
        match self {
            ResolveError::NotCreated(_) => detail.to_owned(),
            ResolveError::NotCanonical { dir, .. } => "cannot canonicalize ".to_string().concat(
                lossy(dir.as_slice()).as_str(),
            ).concat(": ").concat(detail),
        }
    }

    /// What to tell.
    pub fn message(&self) -> (r: String)
        ensures
            self.is_told(r@),
    {
        match self {
            ResolveError::NotCreated(error) => self.message_with(system_text(error).as_str()),
            ResolveError::NotCanonical { error, .. } => self.message_with(system_text(error).as_str()),
        }
    }
}

/// What resolving the directories needs next.
pub enum ResolveStep {
    /// Find the canonical path of the source.
    FindSource(FindSource),
    /// Create keep and the directories above it.
    MakeKeep(MakeKeep),
    /// Create trash and the directories above it.
    MakeTrash(MakeTrash),
    /// Find the canonical path of keep.
    FindKeep(FindKeep),
    /// Find the canonical path of trash.
    FindTrash(FindTrash),
    /// Nothing more: the directories are resolved.
    Done(Config),
    /// Nothing more: they could not be.
    Failed(ResolveError),
}

/// Whether resolving ended because `dir` has no canonical path.
pub open spec fn not_canonical(step: ResolveStep, dir: Seq<u8>, cause: std::io::Error) -> bool {
    step matches ResolveStep::Failed(ResolveError::NotCanonical { dir: d, error }) && d@ == dir
        && error == cause
}

/// Whether resolving ended because a directory could not be created.
pub open spec fn not_created(step: ResolveStep, cause: std::io::Error) -> bool {
    step matches ResolveStep::Failed(ResolveError::NotCreated(error)) && error == cause
}

/// Waiting for the canonical path of the source.
#[derive(Debug)]
pub struct FindSource {
    raw: RawConfig,
}

/// Waiting for keep to be created.
#[derive(Debug)]
pub struct MakeKeep {
    raw: RawConfig,
    source: Vec<u8>,
}

/// Waiting for trash to be created.
#[derive(Debug)]
pub struct MakeTrash {
    raw: RawConfig,
    source: Vec<u8>,
}

/// Waiting for the canonical path of keep.
#[derive(Debug)]
pub struct FindKeep {
    raw: RawConfig,
    source: Vec<u8>,
}

/// Waiting for the canonical path of trash.
#[derive(Debug)]
pub struct FindTrash {
    raw: RawConfig,
    source: Vec<u8>,
    keep: Vec<u8>,
}

impl RawConfig {
    /// Start to resolve the directories.
    pub fn resolve(self) -> (r: ResolveStep)
        ensures
            r matches ResolveStep::FindSource(s) && s.raw() == self,
    {
        ResolveStep::FindSource(FindSource { raw: self })
    }
}

impl FindSource {
    pub closed spec fn raw(self) -> RawConfig {
        self.raw
    }

    /// The directory to find.
    pub fn dir(&self) -> (r: &Vec<u8>)
        ensures
            r@ == self.raw().source_dir@,
    {
        &self.raw.source_dir
    }

    /// Go on, knowing the canonical path of the source.
    pub fn found(self, path: Result<Vec<u8>, std::io::Error>) -> (r: ResolveStep)
        ensures
            match path {
                Ok(p) => r matches ResolveStep::MakeKeep(s) && s.raw() == self.raw() && s.source()
                    == p@,
                Err(e) => not_canonical(r, self.raw().source_dir@, e),
            },
    {
        match path {
            Ok(source) => ResolveStep::MakeKeep(MakeKeep { raw: self.raw, source }),
            Err(error) => ResolveStep::Failed(
                ResolveError::NotCanonical { dir: self.raw.source_dir, error },
            ),
        }
    }
}

impl MakeKeep {
    pub closed spec fn raw(self) -> RawConfig {
        self.raw
    }

    /// The canonical path of the source.
    pub closed spec fn source(self) -> Seq<u8> {
        self.source@
    }

    /// The directory to create.
    pub fn dir(&self) -> (r: &Vec<u8>)
        ensures
            r@ == self.raw().keep_dir@,
    {
        &self.raw.keep_dir
    }

    /// Go on after the attempt to create keep.
    pub fn created(self, result: Result<(), std::io::Error>) -> (r: ResolveStep)
        ensures
            match result {
                Ok(_) => r matches ResolveStep::MakeTrash(s) && s.raw() == self.raw()
                    && s.source() == self.source(),
                Err(e) => not_created(r, e),
            },
    {
        match result {
            Ok(_) => ResolveStep::MakeTrash(MakeTrash { raw: self.raw, source: self.source }),
            Err(error) => ResolveStep::Failed(ResolveError::NotCreated(error)),
        }
    }
}

impl MakeTrash {
    pub closed spec fn raw(self) -> RawConfig {
        self.raw
    }

    /// The canonical path of the source.
    pub closed spec fn source(self) -> Seq<u8> {
        self.source@
    }

    /// The directory to create.
    pub fn dir(&self) -> (r: &Vec<u8>)
        ensures
            r@ == self.raw().trash_dir@,
    {
        &self.raw.trash_dir
    }

    /// Go on after the attempt to create trash.
    pub fn created(self, result: Result<(), std::io::Error>) -> (r: ResolveStep)
        ensures
            match result {
                Ok(_) => r matches ResolveStep::FindKeep(s) && s.raw() == self.raw() && s.source()
                    == self.source(),
                Err(e) => not_created(r, e),
            },
    {
        match result {
            Ok(_) => ResolveStep::FindKeep(FindKeep { raw: self.raw, source: self.source }),
            Err(error) => ResolveStep::Failed(ResolveError::NotCreated(error)),
        }
    }
}

impl FindKeep {
    pub closed spec fn raw(self) -> RawConfig {
        self.raw
    }

    /// The canonical path of the source.
    pub closed spec fn source(self) -> Seq<u8> {
        self.source@
    }

    /// The directory to find.
    pub fn dir(&self) -> (r: &Vec<u8>)
        ensures
            r@ == self.raw().keep_dir@,
    {
        &self.raw.keep_dir
    }

    /// Go on, knowing the canonical path of keep.
    pub fn found(self, path: Result<Vec<u8>, std::io::Error>) -> (r: ResolveStep)
        ensures
            match path {
                Ok(p) => r matches ResolveStep::FindTrash(s) && s.raw() == self.raw()
                    && s.source() == self.source() && s.keep() == p@,
                Err(e) => not_canonical(r, self.raw().keep_dir@, e),
            },
    {
        match path {
            Ok(keep) => ResolveStep::FindTrash(
                FindTrash { raw: self.raw, source: self.source, keep },
            ),
            Err(error) => ResolveStep::Failed(
                ResolveError::NotCanonical { dir: self.raw.keep_dir, error },
            ),
        }
    }
}

/// Whether a configuration is the raw one with its directories replaced.
pub open spec fn is_resolved(
    cfg: Config,
    raw: RawConfig,
    source: Seq<u8>,
    keep: Seq<u8>,
    trash: Seq<u8>,
) -> bool {
    &&& cfg.source_dir@ == source
    &&& cfg.keep_dir@ == keep
    &&& cfg.trash_dir@ == trash
    &&& cfg.order == raw.order
    &&& cfg.extensions == raw.extensions
    &&& cfg.undo_depth == raw.undo_depth
    &&& cfg.bind_addr == raw.bind_addr
    &&& cfg.tz_offset_hours == raw.tz_offset_hours
}

impl FindTrash {
    pub closed spec fn raw(self) -> RawConfig {
        self.raw
    }

    /// The canonical path of the source.
    pub closed spec fn source(self) -> Seq<u8> {
        self.source@
    }

    /// The canonical path of keep.
    pub closed spec fn keep(self) -> Seq<u8> {
        self.keep@
    }

    /// The directory to find.
    pub fn dir(&self) -> (r: &Vec<u8>)
        ensures
            r@ == self.raw().trash_dir@,
    {
        &self.raw.trash_dir
    }

    /// End, knowing the canonical path of trash.
    pub fn found(self, path: Result<Vec<u8>, std::io::Error>) -> (r: ResolveStep)
        ensures
            match path {
                Ok(p) => r matches ResolveStep::Done(cfg) && is_resolved(
                    cfg,
                    self.raw(),
                    self.source(),
                    self.keep(),
                    p@,
                ),
                Err(e) => not_canonical(r, self.raw().trash_dir@, e),
            },
    {
        match path {
            Ok(trash_dir) => ResolveStep::Done(
                Config {
                    source_dir: self.source,
                    keep_dir: self.keep,
                    trash_dir,
                    order: self.raw.order,
                    extensions: self.raw.extensions,
                    undo_depth: self.raw.undo_depth,
                    bind_addr: self.raw.bind_addr,
                    tz_offset_hours: self.raw.tz_offset_hours,
                },
            ),
            Err(error) => ResolveStep::Failed(
                ResolveError::NotCanonical { dir: self.raw.trash_dir, error },
            ),
        }
    }
}

} // verus!
