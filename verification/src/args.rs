//! The settings of one run, and the run itself on what was read for it.
use crate::collect::{collect, collected};
use crate::error::{MergeError, MergeErrorView};
use crate::merge::{is_outcome, merge_existing_toml, merge_spec};
use crate::source::{
    is_file_order, is_path_order, pair_views, sort_files, sort_paths, source_views, string_views,
    SourceFile, SourceView,
};
use std::path::PathBuf;
use vstd::prelude::*;
use vstd::string::StringExecFns;

verus! {

/// `std::path::PathBuf`, carried through as it is.
#[verifier::external_type_specification]
#[verifier::external_body]
pub struct ExPathBuf(PathBuf);

/// How much the run reports.
#[derive(Clone, Copy, Debug, PartialEq, Eq)]
pub enum LogLevel {
    Info,
    Debug,
    Trace,
}

/// The settings of one run.
#[derive(Debug)]
pub struct Args {
    /// Pattern that selects the files to merge.
    pub pattern: String,
    /// Where the merged document is written.
    pub out_path: PathBuf,
    /// Optional log level: absent for info, `v` for debug, `vvvv` for trace.
    pub log_level: Option<String>,
}

/// The level that a log level setting asks for.
pub open spec fn level_of(setting: Option<Seq<char>>) -> LogLevel {
    match setting {
        None => LogLevel::Info,
        Some(level) => if level == "vvvv"@ {
            LogLevel::Trace
        } else {
            LogLevel::Debug
        },
    }
}

/// What collecting for `pattern` from the files that it matched comes to:
/// `NoFileFound` when there is no file, and otherwise what collecting from
/// the files, met in the order of their paths, comes to.
pub open spec fn gathered(
    r: Result<Vec<(String, String)>, MergeError>,
    pattern: Seq<char>,
    files: Seq<SourceView>,
) -> bool {
    if files.len() == 0 {
        r is Err && r->Err_0@ == MergeErrorView::NoFileFound(pattern)
    } else {
        exists|ordered: Seq<SourceView>| #[trigger]
            is_file_order(ordered, files) && collected(r, ordered)
    }
}

impl Args {
    /// Where the merged document is written.
    pub fn get_out_path(&self) -> (r: &PathBuf)
        ensures
            *r == self.out_path,
    {
        &self.out_path
    }

    /// The level at which the run reports.
    pub fn level(&self) -> (r: LogLevel)
        ensures
            r == level_of(
                match self.log_level {
                    Some(level) => Some(level@),
                    None => None,
                },
            ),
    {
        match &self.log_level {
            None => LogLevel::Info,
            Some(level) => {
                let trace = String::from_str("vvvv");
                if *level == trace {
                    LogLevel::Trace
                } else {
                    LogLevel::Debug
                }
            },
        }
    }

    /// The paths that the pattern matched, in the order in which their files
    /// are to be read: the case-insensitive order of the paths. Without a
    /// path the run ends with `NoFileFound`.
    pub fn order_paths(&self, paths: &Vec<String>) -> (r: Result<Vec<String>, MergeError>)
        ensures
            match r {
                Ok(ordered) => paths@.len() > 0 && is_path_order(
                    string_views(ordered@),
                    string_views(paths@),
                ),
                Err(e) => paths@.len() == 0 && e@ == MergeErrorView::NoFileFound(self.pattern@),
            },
    {
        if paths.len() == 0 {
            return Err(MergeError::NoFileFound(self.pattern.clone()));
        }
        Ok(sort_paths(paths))
    }

    /// Collects the entries of the files that the pattern matched. The files
    /// are met in case-insensitive order of their paths.
    pub fn get_env_vars(&self, files: &Vec<SourceFile>) -> (r: Result<
        Vec<(String, String)>,
        MergeError,
    >)
        ensures
            gathered(r, self.pattern@, source_views(files@)),
    {
        if files.len() == 0 {
            return Err(MergeError::NoFileFound(self.pattern.clone()));
        }
        let ordered = sort_files(files);
        collect(&ordered)
    }

    /// Collects the entries of the files and merges them into the existing
    /// document, or into an empty one where none exists yet.
    pub fn get_merge_bytes(&self, files: &Vec<SourceFile>, existing: Option<&str>) -> (r: Result<
        Vec<u8>,
        MergeError,
    >)
        ensures
            exists|env: Result<Vec<(String, String)>, MergeError>| #[trigger]
                gathered(env, self.pattern@, source_views(files@)) && match env {
                    Err(e) => r is Err && r->Err_0@ == e@,
                    Ok(env_vars) => is_outcome(
                        r,
                        merge_spec(
                            pair_views(env_vars@),
                            match existing {
                                Some(text) => text@,
                                None => Seq::empty(),
                            },
                        ),
                    ),
                },
    {
        let env = self.get_env_vars(files);
        match env {
            Err(e) => {
                let r = Err(e);
                assert(gathered(env, self.pattern@, source_views(files@)));
                r
            },
            Ok(env_vars) => {
                let r = match existing {
                    Some(text) => merge_existing_toml(env_vars.as_slice(), text),
                    None => merge_existing_toml(env_vars.as_slice(), ""),
                };
                proof {
                    reveal_strlit("");
                    assert(""@ =~= Seq::<char>::empty());
                    assert(gathered(env, self.pattern@, source_views(files@)));
                }
                r
            },
        }
    }
}

} // verus!
