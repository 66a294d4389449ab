use crate::bytes::{bytes_eq, contains_name, copy_range, names_view};
use crate::error::GitError;
use crate::paths::{dir_above, dir_part, dir_part_len, joined_path, path_join, SLASH};
use vstd::slice::slice_to_vec;
use vstd::string::StringSliceAdditionalSpecFns;
use vstd::prelude::*;

verus! {

/// A repository: where its work tree and its metadata directory are, and the
/// format version that its configuration names. Paths are byte strings with `/`
/// between their components.
#[derive(Debug, Clone, PartialEq, Eq)]
pub struct GitRepo {
    pub work_dir: Vec<u8>,
    pub git_dir: Vec<u8>,
    /// The value of `core.repositoryformatversion`, where the configuration was
    /// read and holds one.
    pub format_version: Option<Vec<u8>>,
}

/// One step of the search for the repository that holds a path.
#[derive(Debug, Clone, PartialEq, Eq)]
pub enum FindStep {
    /// The directory holds a repository.
    Found,
    /// The directory holds none: look in this one next.
    Ascend(Vec<u8>),
    /// No directory is left: the path is in no repository.
    NotFound,
}

/// The format version that this library reads: `0`.
pub open spec fn supported_version() -> Seq<u8> {
    seq![48u8]
}

/// What opening a repository comes to. Unless it is forced, the directory must
/// be laid out as a repository, its configuration must be readable, and the
/// configuration must name the supported format version.
pub open spec fn opened(force: bool, layout_ok: bool, config: Option<Option<Seq<u8>>>) -> Result<
    Option<Seq<u8>>,
    GitError,
> {
    if force {
        Ok(
            match config {
                Some(version) => version,
                None => None,
            },
        )
    } else if !layout_ok {
        Err(GitError::RepoNotFound)
    } else {
        match config {
            Some(Some(version)) => if version == supported_version() {
                Ok(Some(version))
            } else {
                Err(GitError::CorruptRepo)
            },
            _ => Err(GitError::CorruptRepo),
        }
    }
}

/// `.git`.
pub open spec fn git_dir_name() -> Seq<u8> {
    seq![46u8, 103u8, 105u8, 116u8]
}

/// What `repo_dir` asks of the caller.
#[derive(Debug, Clone, PartialEq, Eq)]
pub struct DirRequest {
    /// The directory, below the metadata directory.
    pub path: Vec<u8>,
    /// Whether the directory is to be made, with the directories above it.
    pub create: bool,
}

impl GitRepo {
    /// Opens the repository whose work tree is `path`. `layout_ok` says
    /// whether the directory is laid out as a repository; `config` holds the
    /// format version that the configuration names, `Some(None)` where it
    /// names none, and `None` where the configuration could not be read.
    /// Unless `force` is set, fails with `RepoNotFound` for a directory that
    /// is not laid out as a repository, and with `CorruptRepo` where the
    /// configuration could not be read or does not name version `0`.
    pub fn init(path: Vec<u8>, force: bool, layout_ok: bool, config: Option<Option<Vec<u8>>>) -> (out:
        Result<GitRepo, GitError>)
        ensures
            ({
                let given = match config {
                    Some(Some(v)) => Some(Some(v@)),
                    Some(None) => Some(None::<Seq<u8>>),
                    None => None,
                };
                match out {
                    Ok(repo) => {
                        &&& repo.work_dir@ == path@
                        &&& repo.git_dir@ == joined_path(path@, git_dir_name())
                        &&& opened(force, layout_ok, given) == Ok::<Option<Seq<u8>>, GitError>(
                            match repo.format_version {
                                Some(v) => Some(v@),
                                None => None,
                            },
                        )
                    },
                    Err(e) => opened(force, layout_ok, given) == Err::<Option<Seq<u8>>, GitError>(
                        e,
                    ),
                }
            }),
    {
        let name: [u8; 4] = [46u8, 103u8, 105u8, 116u8];
        assert(name@ =~= git_dir_name());
        let git_dir = path_join(path.as_slice(), name.as_slice());
        if force {
            let format_version = match config {
                Some(version) => version,
                None => None,
            };
            return Ok(GitRepo { work_dir: path, git_dir, format_version });
        }
        if !layout_ok {
            return Err(GitError::RepoNotFound);
        }
        match config {
            Some(Some(version)) => {
                let wanted: [u8; 1] = [48u8];
                assert(wanted@ =~= supported_version());
                if bytes_eq(version.as_slice(), wanted.as_slice()) {
                    Ok(GitRepo { work_dir: path, git_dir, format_version: Some(version) })
                } else {
                    Err(GitError::CorruptRepo)
                }
            },
            _ => Err(GitError::CorruptRepo),
        }
    }

    /// One step of the search for the repository that holds `path`: found
    /// where the directory has a `.git`, else on to the directory above, else
    /// not found.
    pub fn repo_find(path: &[u8], has_git: bool) -> (step: FindStep)
        ensures
            match step {
                FindStep::Found => has_git,
                FindStep::Ascend(up) => !has_git && dir_above(path@) == Some(up@),
                FindStep::NotFound => !has_git && dir_above(path@) is None,
            },
    {
        if has_git {
            return FindStep::Found;
        }
        if path.len() == 0 || (path.len() == 1 && path[0] == SLASH) {
            assert(path@.len() == 1 && path@[0] == SLASH ==> path@ =~= seq![SLASH]);
            return FindStep::NotFound;
        }
        assert(path@ != seq![SLASH]);
        assert(path@.drop_last() =~= path@.take(path@.len() - 1));
        let len = dir_part_len(path, path.len() - 1);
        if len == 0 && path[0] == SLASH {
            let mut up: Vec<u8> = Vec::new();
            up.push(SLASH);
            assert(up@ =~= seq![SLASH]);
            FindStep::Ascend(up)
        } else {
            let up = copy_range(path, 0, len);
            assert(up@ =~= path@.take(len as int));
            FindStep::Ascend(up)
        }
    }

    /// The path of a file or directory of the metadata directory.
    pub fn repo_path(&self, file_path: &[u8]) -> (path: Vec<u8>)
        ensures
            path@ == joined_path(self.git_dir@, file_path@),
    {
        path_join(self.git_dir.as_slice(), file_path)
    }

    /// A directory of the metadata directory, and whether it is to be made:
    /// it is where it does not exist and `mkdir` is set. Fails with
    /// `CorruptRepo` where the path exists and is no directory.
    pub fn repo_dir(&self, file_path: &[u8], mkdir: bool, exists: bool, is_dir: bool) -> (out: Result<
        DirRequest,
        GitError,
    >)
        ensures
            match out {
                Ok(request) => !(exists && !is_dir) && request.path@ == joined_path(
                    self.git_dir@,
                    file_path@,
                ) && request.create == (!exists && mkdir),
                Err(e) => exists && !is_dir && e == GitError::CorruptRepo,
            },
    {
        if exists && !is_dir {
            return Err(GitError::CorruptRepo);
        }
        Ok(DirRequest { path: self.repo_path(file_path), create: !exists && mkdir })
    }

    /// The path of a file of the metadata directory, and the directory that
    /// holds it, which `repo_dir` is to be asked for.
    pub fn repo_file(&self, file_path: &[u8]) -> (out: (Vec<u8>, Vec<u8>))
        ensures
            out.0@ == joined_path(self.git_dir@, file_path@),
            out.1@ == dir_part(file_path@),
    {
        assert(file_path@.take(file_path@.len() as int) =~= file_path@);
        let len = dir_part_len(file_path, file_path.len());
        let dir = copy_range(file_path, 0, len);
        assert(dir@ =~= file_path@.take(len as int));
        (self.repo_path(file_path), dir)
    }
}

/// One step of laying out a new repository. Paths are relative to the metadata
/// directory.
#[derive(Debug, Clone, PartialEq, Eq)]
pub enum InitStep {
    /// Make a directory, with the directories above it.
    MakeDir(Vec<u8>),
    /// Write the configuration with these sections, keys and values.
    WriteConfig(Vec<(Vec<u8>, Vec<u8>, Vec<u8>)>),
    /// Write a file with this content.
    WriteFile(Vec<u8>, Vec<u8>),
}

/// What an `InitStep` holds, as plain values.
pub enum InitStepView {
    MakeDir(Seq<u8>),
    WriteConfig(Seq<(Seq<u8>, Seq<u8>, Seq<u8>)>),
    WriteFile(Seq<u8>, Seq<u8>),
}

/// The sections, keys and values of a configuration, as plain values.
pub open spec fn conf_view(conf: Seq<(Vec<u8>, Vec<u8>, Vec<u8>)>) -> Seq<
    (Seq<u8>, Seq<u8>, Seq<u8>),
> {
    Seq::new(conf.len(), |i: int| (conf[i].0@, conf[i].1@, conf[i].2@))
}

impl View for InitStep {
    type V = InitStepView;

    open spec fn view(&self) -> InitStepView {
        match self {
            InitStep::MakeDir(path) => InitStepView::MakeDir(path@),
            InitStep::WriteConfig(conf) => InitStepView::WriteConfig(conf_view(conf@)),
            InitStep::WriteFile(path, content) => InitStepView::WriteFile(path@, content@),
        }
    }
}

/// The default configuration: in the section `core`, format version 0, file
/// modes tracked, a work tree, updates of references logged.
pub open spec fn default_conf() -> Seq<(Seq<u8>, Seq<u8>, Seq<u8>)> {
    seq![
        ("core".spec_bytes(), "repositoryformatversion".spec_bytes(), "0".spec_bytes()),
        ("core".spec_bytes(), "filemode".spec_bytes(), "true".spec_bytes()),
        ("core".spec_bytes(), "bare".spec_bytes(), "false".spec_bytes()),
        ("core".spec_bytes(), "logallrefupdates".spec_bytes(), "true".spec_bytes()),
    ]
}

/// The steps that lay out a new repository: the directories `branches`,
/// `objects`, `refs/tags` and `refs/heads`; the default configuration; the
/// description; and a `HEAD` that names the branch `master`.
pub open spec fn init_steps() -> Seq<InitStepView> {
    seq![
        InitStepView::MakeDir("branches".spec_bytes()),
        InitStepView::MakeDir("objects".spec_bytes()),
        InitStepView::MakeDir("refs/tags".spec_bytes()),
        InitStepView::MakeDir("refs/heads".spec_bytes()),
        InitStepView::WriteConfig(default_conf()),
        InitStepView::WriteFile(
            "description".spec_bytes(),
            "Unnamed repository; edit this file 'description' to name the repository.\n".spec_bytes(),
        ),
        InitStepView::WriteFile("HEAD".spec_bytes(), "ref: refs/heads/master\n".spec_bytes()),
    ]
}

/// The bytes of a text.
fn text(s: &str) -> (bytes: Vec<u8>)
    ensures
        bytes@ == s.spec_bytes(),
{
    slice_to_vec(s.as_bytes())
}

/// The default configuration.
pub fn get_default_conf() -> (conf: Vec<(Vec<u8>, Vec<u8>, Vec<u8>)>)
    ensures
        conf_view(conf@) == default_conf(),
{
    let mut conf: Vec<(Vec<u8>, Vec<u8>, Vec<u8>)> = Vec::new();
    conf.push((text("core"), text("repositoryformatversion"), text("0")));
    conf.push((text("core"), text("filemode"), text("true")));
    conf.push((text("core"), text("bare"), text("false")));
    conf.push((text("core"), text("logallrefupdates"), text("true")));
    assert(conf_view(conf@) =~= default_conf());
    conf
}

/// The steps that lay out a new repository.
pub fn create_new_my_git() -> (steps: Vec<InitStep>)
    ensures
        Seq::new(steps@.len(), |i: int| steps@[i]@) == init_steps(),
{
    let mut steps: Vec<InitStep> = Vec::new();
    steps.push(InitStep::MakeDir(text("branches")));
    steps.push(InitStep::MakeDir(text("objects")));
    steps.push(InitStep::MakeDir(text("refs/tags")));
    steps.push(InitStep::MakeDir(text("refs/heads")));
    steps.push(InitStep::WriteConfig(get_default_conf()));
    steps.push(
        InitStep::WriteFile(
            text("description"),
            text("Unnamed repository; edit this file 'description' to name the repository.\n"),
        ),
    );
    steps.push(InitStep::WriteFile(text("HEAD"), text("ref: refs/heads/master\n")));
    assert(Seq::new(steps@.len(), |i: int| steps@[i]@) =~= init_steps());
    steps
}

/// Whether the names hold those of the three files that a metadata directory
/// must have: `config`, `description` and `HEAD`.
pub open spec fn mandatory_present(names: Seq<Seq<u8>>) -> bool {
    names.contains("config".spec_bytes()) && names.contains("description".spec_bytes())
        && names.contains("HEAD".spec_bytes())
}

/// Whether a directory with these files is laid out as a metadata directory.
pub fn is_my_git_dir(files: &Vec<Vec<u8>>) -> (yes: bool)
    ensures
        yes == mandatory_present(names_view(files@)),
{
    contains_name(files, "config".as_bytes()) && contains_name(files, "description".as_bytes())
        && contains_name(files, "HEAD".as_bytes())
}

} // verus!
