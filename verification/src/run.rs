//! Run instructions: what a leaf pane executes, and the algebra that merges
//! a pane template's default action with a per-instance override.

use vstd::prelude::*;

use crate::pathjoin::{join_path_spec, join_paths};
use crate::strutil::str_eq;

verus! {

/// Tag naming a plugin bundled with the application.
#[derive(Debug, PartialEq, Eq, Hash)]
pub struct PluginTag(pub String);

impl DeepView for PluginTag {
    type V = Seq<char>;

    open spec fn deep_view(&self) -> Seq<char> {
        self.0@
    }
}

impl PluginTag {
    pub fn new(tag: String) -> (r: Self)
        ensures
            r.deep_view() == tag@,
    {
        PluginTag(tag)
    }
}

impl Clone for PluginTag {
    fn clone(&self) -> (r: Self)
        ensures
            r.deep_view() == self.deep_view(),
    {
        PluginTag(self.0.clone())
    }
}

/// Where a plugin lives: a file on disk, or a bundled plugin named by tag.
#[derive(Debug, PartialEq, Eq, Hash)]
pub enum RunPluginLocation {
    File(String),
    Zellij(PluginTag),
}

#[verifier::ext_equal]
pub enum RunPluginLocationView {
    File(Seq<char>),
    Zellij(Seq<char>),
}

impl DeepView for RunPluginLocation {
    type V = RunPluginLocationView;

    open spec fn deep_view(&self) -> RunPluginLocationView {
        match self {
            RunPluginLocation::File(p) => RunPluginLocationView::File(p@),
            RunPluginLocation::Zellij(t) => RunPluginLocationView::Zellij(t.deep_view()),
        }
    }
}

impl Clone for RunPluginLocation {
    fn clone(&self) -> (r: Self)
        ensures
            r.deep_view() == self.deep_view(),
    {
        match self {
            RunPluginLocation::File(p) => RunPluginLocation::File(p.clone()),
            RunPluginLocation::Zellij(t) => RunPluginLocation::Zellij(t.clone()),
        }
    }
}

/// A plugin to run in a pane.
#[derive(Debug, PartialEq, Eq)]
pub struct RunPlugin {
    pub _allow_exec_host_cmd: bool,
    pub location: RunPluginLocation,
}

#[verifier::ext_equal]
pub struct RunPluginView {
    pub _allow_exec_host_cmd: bool,
    pub location: RunPluginLocationView,
}

impl DeepView for RunPlugin {
    type V = RunPluginView;

    open spec fn deep_view(&self) -> RunPluginView {
        RunPluginView {
            _allow_exec_host_cmd: self._allow_exec_host_cmd,
            location: self.location.deep_view(),
        }
    }
}

impl Clone for RunPlugin {
    fn clone(&self) -> (r: Self)
        ensures
            r.deep_view() == self.deep_view(),
    {
        RunPlugin { _allow_exec_host_cmd: self._allow_exec_host_cmd, location: self.location.clone() }
    }
}

/// A command to run in a pane: program, arguments, optional working
/// directory, and the hold flags controlling pane lifetime.
#[derive(Debug, PartialEq, Eq)]
pub struct RunCommand {
    pub command: String,
    pub args: Vec<String>,
    pub cwd: Option<String>,
    pub hold_on_close: bool,
    pub hold_on_start: bool,
}

#[verifier::ext_equal]
pub struct RunCommandView {
    pub command: Seq<char>,
    pub args: Seq<Seq<char>>,
    pub cwd: Option<Seq<char>>,
    pub hold_on_close: bool,
    pub hold_on_start: bool,
}

impl DeepView for RunCommand {
    type V = RunCommandView;

    open spec fn deep_view(&self) -> RunCommandView {
        RunCommandView {
            command: self.command@,
            args: self.args.deep_view(),
            cwd: self.cwd.deep_view(),
            hold_on_close: self.hold_on_close,
            hold_on_start: self.hold_on_start,
        }
    }
}

/// Clone every element of a vector of strings.
fn clone_string_vec(v: &Vec<String>) -> (r: Vec<String>)
    ensures
        r.deep_view() == v.deep_view(),
{
    let mut r: Vec<String> = Vec::new();
    let mut i: usize = 0;
    while i < v.len()
        invariant
            0 <= i <= v@.len(),
            r@.len() == i,
            forall|j: int| 0 <= j < i ==> r@[j]@ == v@[j]@,
        decreases v@.len() - i,
    {
        r.push(v[i].clone());
        i += 1;
    }
    proof {
        assert(r.deep_view() =~~= v.deep_view());
    }
    r
}

pub fn clone_opt_string(v: &Option<String>) -> (r: Option<String>)
    ensures
        r.deep_view() == v.deep_view(),
{
    match v {
        Some(s) => Some(s.clone()),
        None => None,
    }
}

impl Clone for RunCommand {
    fn clone(&self) -> (r: Self)
        ensures
            r.deep_view() == self.deep_view(),
    {
        let r = RunCommand {
            command: self.command.clone(),
            args: clone_string_vec(&self.args),
            cwd: clone_opt_string(&self.cwd),
            hold_on_close: self.hold_on_close,
            hold_on_start: self.hold_on_start,
        };
        proof {
            assert(r.deep_view() =~~= self.deep_view());
        }
        r
    }
}

/// Error for a plugin location given as a URL the library does not
/// understand; it carries the offending URL.
#[derive(Debug)]
pub enum PluginsConfigError {
    InvalidUrl(url::Url),
}

/// Declares url::Url, the `url` crate's parsed-URL type, as an opaque
/// value the library can hold and pass through.
#[verifier::external_type_specification]
#[verifier::external_body]
pub struct ExUrl(url::Url);

/// Declares url::ParseError, the `url` crate's parse-failure type.
#[verifier::external_type_specification]
#[verifier::external_body]
pub struct ExUrlParseError(url::ParseError);

/// Relies on url::Url::parse: parses an absolute URL from a string.
pub assume_specification[ url::Url::parse ](input: &str) -> (r: Result<url::Url, url::ParseError>);

/// Relies on url::Url::scheme: the scheme part of the URL, as an owned
/// string.
#[verifier::external_body]
fn url_scheme_string(url: &url::Url) -> (r: String) {
    url.scheme().to_owned()
}

/// Relies on url::Url::path: the path part of the URL, as an owned string.
#[verifier::external_body]
fn url_path_string(url: &url::Url) -> (r: String) {
    url.path().to_owned()
}

/// The serialized URL form of a plugin location: its scheme, a colon, and
/// the path or tag.
pub open spec fn url_string_spec(v: RunPluginLocationView) -> Seq<char> {
    match v {
        RunPluginLocationView::File(p) => "file:"@ + p,
        RunPluginLocationView::Zellij(t) => "zellij:"@ + t,
    }
}

impl RunPluginLocation {
    /// Decide a plugin location from an already-split URL: scheme `zellij`
    /// names a bundled plugin by tag, scheme `file` a plugin file by path;
    /// any other scheme is rejected with the offending URL.
    pub fn from_scheme_and_path(scheme: &str, path: &str, url: url::Url) -> (r: Result<
        RunPluginLocation,
        PluginsConfigError,
    >)
        ensures
            scheme@ == "zellij"@ ==> (r matches Ok(loc) && loc.deep_view()
                == RunPluginLocationView::Zellij(path@)),
            scheme@ != "zellij"@ && scheme@ == "file"@ ==> (r matches Ok(loc) && loc.deep_view()
                == RunPluginLocationView::File(path@)),
            scheme@ != "zellij"@ && scheme@ != "file"@ ==> (r matches Err(
                PluginsConfigError::InvalidUrl(_),
            )),
    {
        if str_eq(scheme, "zellij") {
            Ok(RunPluginLocation::Zellij(PluginTag::new(path.to_owned())))
        } else if str_eq(scheme, "file") {
            Ok(RunPluginLocation::File(path.to_owned()))
        } else {
            Err(PluginsConfigError::InvalidUrl(url))
        }
    }

    /// Resolve a parsed URL into a plugin location by its scheme and path.
    pub fn try_from(url: url::Url) -> (r: Result<RunPluginLocation, PluginsConfigError>)
        ensures
            r matches Ok(loc) ==> ((loc matches RunPluginLocation::File(_)) || (
            loc matches RunPluginLocation::Zellij(_))),
    {
        let scheme = url_scheme_string(&url);
        let path = url_path_string(&url);
        Self::from_scheme_and_path(scheme.as_str(), path.as_str(), url)
    }

    /// The serialized URL form of this location.
    pub fn url_string(&self) -> (r: String)
        ensures
            r@ == url_string_spec(self.deep_view()),
    {
        match self {
            RunPluginLocation::File(path) => {
                let mut s = String::from_str("file:");
                s.append(path.as_str());
                s
            },
            RunPluginLocation::Zellij(tag) => {
                let mut s = String::from_str("zellij:");
                s.append(tag.0.as_str());
                s
            },
        }
    }

    /// This location's URL form, parsed back through the `url` crate.
    pub fn to_url(&self) -> (r: Result<url::Url, url::ParseError>) {
        let s = self.url_string();
        url::Url::parse(s.as_str())
    }

    /// The human-readable text of the location: the file path or the tag,
    /// without a scheme.
    pub fn display_string(&self) -> (r: String)
        ensures
            r@ == (match self.deep_view() {
                RunPluginLocationView::File(p) => p,
                RunPluginLocationView::Zellij(t) => t,
            }),
    {
        match self {
            RunPluginLocation::File(path) => path.clone(),
            RunPluginLocation::Zellij(tag) => tag.0.clone(),
        }
    }
}

/// What a leaf pane executes.  `Cwd` is transient: a directory with no
/// decided action yet, meant to be merged into a terminal action before the
/// pane spawns.
#[derive(Debug, PartialEq, Eq)]
pub enum Run {
    Plugin(RunPlugin),
    Command(RunCommand),
    EditFile(String, Option<usize>),
    Cwd(String),
}

#[verifier::ext_equal]
pub enum RunView {
    Plugin(RunPluginView),
    Command(RunCommandView),
    EditFile(Seq<char>, Option<usize>),
    Cwd(Seq<char>),
}

impl DeepView for Run {
    type V = RunView;

    open spec fn deep_view(&self) -> RunView {
        match self {
            Run::Plugin(p) => RunView::Plugin(p.deep_view()),
            Run::Command(c) => RunView::Command(c.deep_view()),
            Run::EditFile(p, ln) => RunView::EditFile(p@, *ln),
            Run::Cwd(p) => RunView::Cwd(p@),
        }
    }
}

impl Clone for Run {
    fn clone(&self) -> (r: Self)
        ensures
            r.deep_view() == self.deep_view(),
    {
        match self {
            Run::Plugin(p) => Run::Plugin(p.clone()),
            Run::Command(c) => Run::Command(c.clone()),
            Run::EditFile(p, ln) => Run::EditFile(p.clone(), *ln),
            Run::Cwd(p) => Run::Cwd(p.clone()),
        }
    }
}

/// Clone an optional run instruction.
pub fn clone_opt_run(r: &Option<Run>) -> (res: Option<Run>)
    ensures
        res.deep_view() == r.deep_view(),
{
    match r {
        Some(run) => Some(run.clone()),
        None => None,
    }
}

/// The merge of a template's default run instruction with a per-instance
/// override: the override wins, except that an override command inherits a
/// missing working directory and empty arguments from the template, an
/// override directory rewrites a template command's working directory, and
/// an override file-to-edit is resolved against the template's directory.
pub open spec fn merge_spec(base: Option<RunView>, other: Option<RunView>) -> Option<RunView> {
    match (base, other) {
        (Some(RunView::Command(b)), Some(RunView::Command(o))) => {
            let cwd = if o.cwd is None && b.cwd is Some {
                b.cwd
            } else {
                o.cwd
            };
            let args = if o.args.len() == 0 && b.args.len() > 0 {
                b.args
            } else {
                o.args
            };
            Some(RunView::Command(RunCommandView { cwd, args, ..o }))
        },
        (Some(RunView::Command(b)), Some(RunView::Cwd(p))) => {
            Some(RunView::Command(RunCommandView { cwd: Some(p), ..b }))
        },
        (Some(RunView::Cwd(p)), Some(RunView::Command(o))) => {
            let cwd = if o.cwd is None {
                Some(p)
            } else {
                o.cwd
            };
            Some(RunView::Command(RunCommandView { cwd, ..o }))
        },
        (Some(RunView::Command(b)), Some(RunView::EditFile(f, ln))) => {
            match b.cwd {
                Some(c) => Some(RunView::EditFile(join_path_spec(c, f), ln)),
                None => Some(RunView::EditFile(f, ln)),
            }
        },
        (Some(RunView::Cwd(p)), Some(RunView::EditFile(f, ln))) => {
            Some(RunView::EditFile(join_path_spec(p, f), ln))
        },
        (Some(_), Some(o)) => Some(o),
        (Some(b), None) => Some(b),
        (None, Some(o)) => Some(o),
        (None, None) => None,
    }
}

/// Whether the two optional instructions carry the same variant tag,
/// payloads ignored.
pub open spec fn same_category_spec(a: Option<RunView>, b: Option<RunView>) -> bool {
    match (a, b) {
        (Some(RunView::Plugin(_)), Some(RunView::Plugin(_))) => true,
        (Some(RunView::Command(_)), Some(RunView::Command(_))) => true,
        (Some(RunView::EditFile(_, _)), Some(RunView::EditFile(_, _))) => true,
        (Some(RunView::Cwd(_)), Some(RunView::Cwd(_))) => true,
        _ => false,
    }
}

/// `add_cwd` resolves the instruction's stored path against `cwd`; a
/// command without a directory simply receives `cwd`.  Plugins are
/// untouched.
pub open spec fn add_cwd_spec(r: RunView, cwd: Seq<char>) -> RunView {
    match r {
        RunView::Command(c) => RunView::Command(
            RunCommandView {
                cwd: Some(
                    match c.cwd {
                        Some(existing) => join_path_spec(cwd, existing),
                        None => cwd,
                    },
                ),
                ..c
            },
        ),
        RunView::EditFile(p, ln) => RunView::EditFile(join_path_spec(cwd, p), ln),
        RunView::Cwd(p) => RunView::Cwd(join_path_spec(cwd, p)),
        RunView::Plugin(pl) => RunView::Plugin(pl),
    }
}

/// `add_args` overrides a command's arguments only when the given list is
/// present and non-empty.
pub open spec fn add_args_spec(r: RunView, args: Option<Seq<Seq<char>>>) -> RunView {
    match (r, args) {
        (RunView::Command(c), Some(a)) => {
            if a.len() > 0 {
                RunView::Command(RunCommandView { args: a, ..c })
            } else {
                r
            }
        },
        _ => r,
    }
}

impl Run {
    /// Merge a pane template's instruction with a per-instance override.
    pub fn merge(base: &Option<Run>, other: &Option<Run>) -> (r: Option<Run>)
        ensures
            r.deep_view() == merge_spec(base.deep_view(), other.deep_view()),
    {
        match (base, other) {
            (Some(Run::Command(base_cmd)), Some(Run::Command(other_cmd))) => {
                let mut merged = other_cmd.clone();
                if merged.cwd.is_none() && base_cmd.cwd.is_some() {
                    merged.cwd = clone_opt_string(&base_cmd.cwd);
                }
                if merged.args.is_empty() && !base_cmd.args.is_empty() {
                    merged.args = clone_string_vec(&base_cmd.args);
                }
                let r = Some(Run::Command(merged));
                proof {
                    assert(r.deep_view() =~~= merge_spec(base.deep_view(), other.deep_view()));
                }
                r
            },
            (Some(Run::Command(base_cmd)), Some(Run::Cwd(other_cwd))) => {
                let mut merged = base_cmd.clone();
                merged.cwd = Some(other_cwd.clone());
                let r = Some(Run::Command(merged));
                proof {
                    assert(r.deep_view() =~~= merge_spec(base.deep_view(), other.deep_view()));
                }
                r
            },
            (Some(Run::Cwd(base_cwd)), Some(Run::Command(other_cmd))) => {
                let mut merged = other_cmd.clone();
                if merged.cwd.is_none() {
                    merged.cwd = Some(base_cwd.clone());
                }
                let r = Some(Run::Command(merged));
                proof {
                    assert(r.deep_view() =~~= merge_spec(base.deep_view(), other.deep_view()));
                }
                r
            },
            (Some(Run::Command(base_cmd)), Some(Run::EditFile(file_to_edit, line_number))) => {
                match &base_cmd.cwd {
                    Some(cwd) => Some(
                        Run::EditFile(join_paths(cwd.as_str(), file_to_edit.as_str()), *line_number),
                    ),
                    None => Some(Run::EditFile(file_to_edit.clone(), *line_number)),
                }
            },
            (Some(Run::Cwd(cwd)), Some(Run::EditFile(file_to_edit, line_number))) => {
                Some(Run::EditFile(join_paths(cwd.as_str(), file_to_edit.as_str()), *line_number))
            },
            (Some(_), Some(other_run)) => Some(other_run.clone()),
            (Some(base_run), None) => Some(base_run.clone()),
            (None, Some(other_run)) => Some(other_run.clone()),
            (None, None) => None,
        }
    }

    /// Resolve this instruction's path against `cwd`.
    pub fn add_cwd(&mut self, cwd: &str)
        ensures
            final(self).deep_view() == add_cwd_spec(old(self).deep_view(), cwd@),
    {
        let new_run = match &*self {
            Run::Command(run_command) => {
                let new_cwd = match &run_command.cwd {
                    Some(existing) => join_paths(cwd, existing.as_str()),
                    None => cwd.to_owned(),
                };
                let mut merged = run_command.clone();
                merged.cwd = Some(new_cwd);
                Run::Command(merged)
            },
            Run::EditFile(path_to_file, line_number) => {
                Run::EditFile(join_paths(cwd, path_to_file.as_str()), *line_number)
            },
            Run::Cwd(path) => Run::Cwd(join_paths(cwd, path.as_str())),
            Run::Plugin(pl) => Run::Plugin(pl.clone()),
        };
        *self = new_run;
        proof {
            assert(final(self).deep_view() =~~= add_cwd_spec(old(self).deep_view(), cwd@));
        }
    }

    /// Override a command's arguments with a non-empty replacement list.
    pub fn add_args(&mut self, args: Option<Vec<String>>)
        ensures
            final(self).deep_view() == add_args_spec(old(self).deep_view(), args.deep_view()),
    {
        if let Some(a) = args {
            if !a.is_empty() {
                let replaced = match &*self {
                    Run::Command(run_command) => {
                        let mut merged = run_command.clone();
                        merged.args = a;
                        Some(Run::Command(merged))
                    },
                    _ => None,
                };
                if let Some(new_run) = replaced {
                    *self = new_run;
                }
            }
        }
        proof {
            assert(final(self).deep_view() =~~= add_args_spec(old(self).deep_view(), args.deep_view()));
        }
    }

    /// Record whether the pane should be held open when the command exits.
    pub fn add_close_on_exit(&mut self, close_on_exit: Option<bool>)
        ensures
            final(self).deep_view() == (match (old(self).deep_view(), close_on_exit) {
                (RunView::Command(c), Some(b)) => RunView::Command(
                    RunCommandView { hold_on_close: !b, ..c },
                ),
                (v, _) => v,
            }),
    {
        if let Some(b) = close_on_exit {
            let replaced = match &*self {
                Run::Command(run_command) => {
                    let mut merged = run_command.clone();
                    merged.hold_on_close = !b;
                    Some(Run::Command(merged))
                },
                _ => None,
            };
            if let Some(new_run) = replaced {
                *self = new_run;
            }
        }
        proof {
            assert(final(self).deep_view() =~~= (match (old(self).deep_view(), close_on_exit) {
                (RunView::Command(c), Some(b)) => RunView::Command(
                    RunCommandView { hold_on_close: !b, ..c },
                ),
                (v, _) => v,
            }));
        }
    }

    /// Record whether the command starts suspended.
    pub fn add_start_suspended(&mut self, start_suspended: Option<bool>)
        ensures
            final(self).deep_view() == (match (old(self).deep_view(), start_suspended) {
                (RunView::Command(c), Some(b)) => RunView::Command(
                    RunCommandView { hold_on_start: b, ..c },
                ),
                (v, _) => v,
            }),
    {
        if let Some(b) = start_suspended {
            let replaced = match &*self {
                Run::Command(run_command) => {
                    let mut merged = run_command.clone();
                    merged.hold_on_start = b;
                    Some(Run::Command(merged))
                },
                _ => None,
            };
            if let Some(new_run) = replaced {
                *self = new_run;
            }
        }
        proof {
            assert(final(self).deep_view() =~~= (match (old(self).deep_view(), start_suspended) {
                (RunView::Command(c), Some(b)) => RunView::Command(
                    RunCommandView { hold_on_start: b, ..c },
                ),
                (v, _) => v,
            }));
        }
    }

    /// Whether both instructions are present and of the same variant.
    pub fn is_same_category(first: &Option<Run>, second: &Option<Run>) -> (r: bool)
        ensures
            r == same_category_spec(first.deep_view(), second.deep_view()),
    {
        match (first, second) {
            (Some(Run::Plugin(_)), Some(Run::Plugin(_))) => true,
            (Some(Run::Command(_)), Some(Run::Command(_))) => true,
            (Some(Run::EditFile(_, _)), Some(Run::EditFile(_, _))) => true,
            (Some(Run::Cwd(_)), Some(Run::Cwd(_))) => true,
            _ => false,
        }
    }

    /// Whether the instruction spawns a terminal pane: everything but a
    /// plugin does, including the absence of an instruction.
    pub fn is_terminal(run: &Option<Run>) -> (r: bool)
        ensures
            r == !(run.deep_view() matches Some(RunView::Plugin(_))),
    {
        match run {
            Some(Run::Command(_)) | Some(Run::EditFile(_, _)) | Some(Run::Cwd(_)) | None => true,
            _ => false,
        }
    }
}

} // verus!

