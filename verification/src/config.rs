//! The settings of a run: what a configuration file holds, what the command
//! line holds, and how the two are put together.

use crate::parse::{ParserConfig, DEFAULT_END_COMMAND, DEFAULT_TAG_BEGIN, DEFAULT_TAG_END};
use crate::syntax::CommandTags;
use vstd::prelude::*;
use vstd::string::*;

verus! {

/// The directory that holds `path`, as `std::path::Path::parent` gives it,
/// or `None` where `path` has none.
pub uninterp spec fn parent_of(path: Seq<char>) -> Option<Seq<char>>;

/// The path `rest` seen from the directory `base`, as
/// `std::path::Path::join` gives it.
pub uninterp spec fn joined_path(base: Seq<char>, rest: Seq<char>) -> Seq<char>;

/// The text of a string that may be missing.
pub open spec fn text_of(t: Option<String>) -> Option<Seq<char>> {
    match t {
        Some(s) => Some(s@),
        None => None,
    }
}

/// The texts of a list of strings.
pub open spec fn texts_of(v: Seq<String>) -> Seq<Seq<char>> {
    Seq::new(v.len(), |i: int| v[i]@)
}

/// Calls `std::path::Path::parent` on `path`. The contract gives what comes
/// back the name `parent_of`.
#[verifier::external_body]
fn path_parent(path: &str) -> (r: Option<String>)
    ensures
        text_of(r) == parent_of(path@),
{
    match std::path::Path::new(path).parent() {
        Some(p) => Some(p.to_string_lossy().into_owned()),
        None => None,
    }
}

/// Calls `std::path::Path::join` on `base` with `rest`. The contract gives
/// what comes back the name `joined_path`.
#[verifier::external_body]
pub(crate) fn path_join(base: &str, rest: &str) -> (r: String)
    ensures
        r@ == joined_path(base@, rest@),
{
    std::path::Path::new(base).join(rest).to_string_lossy().into_owned()
}

/// Why the settings could not be put together.
#[derive(Debug, Clone, Copy, PartialEq, Eq)]
pub enum ConfigError {
    /// The path of the configuration file has no parent directory.
    NoParent,
}

/// What a configuration file holds.
#[derive(Clone, Debug, PartialEq)]
pub struct Config {
    /// The opening tag for commands
    pub open_tag: String,
    /// The closing tag for commands
    pub close_tag: String,
    /// The command used to end a block
    pub end_command: String,
    /// Relative path of the base directory used to reference imported files
    pub base_dir: String,
    /// Relative paths of files to process
    pub files: Vec<String>,
    /// Relative paths of directories to process after this one
    pub next_dirs: Vec<String>,
    /// Relative paths of directories to process before this one
    pub depend_dirs: Vec<String>,
    /// Relative path of output directory
    pub out_dir: Option<String>,
}

impl Default for Config {
    fn default() -> (r: Self)
        ensures
            r.open_tag@ == DEFAULT_TAG_BEGIN@,
            r.close_tag@ == DEFAULT_TAG_END@,
            r.end_command@ == DEFAULT_END_COMMAND@,
            r.base_dir@ == Seq::<char>::empty(),
            r.files@.len() == 0,
            r.next_dirs@.len() == 0,
            r.depend_dirs@.len() == 0,
            r.out_dir is None,
    {
        Config {
            open_tag: String::from_str(DEFAULT_TAG_BEGIN),
            close_tag: String::from_str(DEFAULT_TAG_END),
            end_command: String::from_str(DEFAULT_END_COMMAND),
            base_dir: String::new(),
            files: Vec::new(),
            next_dirs: Vec::new(),
            depend_dirs: Vec::new(),
            out_dir: None,
        }
    }
}

/// The name of the configuration file of a directory.
pub const CONFIG_FILE: &'static str = ".md-inc.toml";

/// The path of the configuration file of the directory `dir`.
pub fn config_file_in(dir: &str) -> (r: String)
    ensures
        r@ == joined_path(dir@, CONFIG_FILE@),
{
    path_join(dir, CONFIG_FILE)
}

/// A configuration and the path of the file it was read from.
#[derive(Clone, Debug)]
pub struct ConfigAndPath {
    pub config: Config,
    pub path: String,
}

/// Each of `names` seen from the directory `base`.
pub open spec fn joined_all(base: Seq<char>, names: Seq<Seq<char>>) -> Seq<Seq<char>> {
    Seq::new(names.len(), |i: int| joined_path(base, names[i]))
}

fn join_all(base: &str, names: &Vec<String>) -> (r: Vec<String>)
    ensures
        texts_of(r@) == joined_all(base@, texts_of(names@)),
{
    let mut r: Vec<String> = Vec::new();
    let mut i: usize = 0;
    while i < names.len()
        invariant
            i <= names.len(),
            r.len() == i,
            forall|k: int| 0 <= k < i ==> (#[trigger] r[k])@ == joined_path(base@, names[k]@),
        decreases names.len() - i,
    {
        r.push(path_join(base, names[i].as_str()));
        i += 1;
    }
    proof {
        assert(texts_of(r@) =~= joined_all(base@, texts_of(names@)));
    }
    r
}

impl ConfigAndPath {
    /// The directory that holds the configuration file.
    pub fn parent_path(&self) -> (r: Result<String, ConfigError>)
        ensures
            match parent_of(self.path@) {
                Some(p) => r is Ok && r->Ok_0@ == p,
                None => r == Err::<String, ConfigError>(ConfigError::NoParent),
            },
    {
        match path_parent(self.path.as_str()) {
            Some(p) => Ok(p),
            None => Err(ConfigError::NoParent),
        }
    }

    /// The parser configuration and the files to process that the
    /// configuration file asks for. Its base directory and its files are
    /// seen from the directory that holds it.
    pub fn into_parser(self) -> (r: Result<(ParserConfig, Vec<String>), ConfigError>)
        ensures
            match parent_of(self.path@) {
                Some(p) => r is Ok && ({
                    let (parser, files) = r->Ok_0;
                    &&& parser.tags.opening@ == self.config.open_tag@
                    &&& parser.tags.closing@ == self.config.close_tag@
                    &&& parser.end_command@ == self.config.end_command@
                    &&& parser.base_dir@ == joined_path(p, self.config.base_dir@)
                    &&& texts_of(files@) == joined_all(p, texts_of(self.config.files@))
                }),
                None => r is Err && r->Err_0 == ConfigError::NoParent,
            },
    {
        let parent = match self.parent_path() {
            Ok(p) => p,
            Err(e) => {
                return Err(e);
            },
        };
        let files = join_all(parent.as_str(), &self.config.files);
        let base_dir = path_join(parent.as_str(), self.config.base_dir.as_str());
        Ok(
            (
                ParserConfig {
                    tags: CommandTags::new(
                        self.config.open_tag.as_str(),
                        self.config.close_tag.as_str(),
                    ),
                    end_command: self.config.end_command,
                    base_dir,
                },
                files,
            ),
        )
    }

    /// The directories to work through, in their order: those that this one
    /// depends on, then `found`, then those that come after this one. The
    /// directories that the configuration names are seen from the directory
    /// that holds it.
    pub fn work_dirs(&self, found: Vec<String>) -> (r: Result<Vec<String>, ConfigError>)
        ensures
            match parent_of(self.path@) {
                Some(p) => r is Ok && texts_of(r->Ok_0@) == joined_all(
                    p,
                    texts_of(self.config.depend_dirs@),
                ) + texts_of(found@) + joined_all(p, texts_of(self.config.next_dirs@)),
                None => r is Err && r->Err_0 == ConfigError::NoParent,
            },
    {
        let parent = match self.parent_path() {
            Ok(p) => p,
            Err(e) => {
                return Err(e);
            },
        };
        let mut dirs = join_all(parent.as_str(), &self.config.depend_dirs);
        let mut middle = found;
        let mut after = join_all(parent.as_str(), &self.config.next_dirs);
        let ghost a = texts_of(dirs@);
        let ghost b = texts_of(middle@);
        let ghost c = texts_of(after@);
        dirs.append(&mut middle);
        dirs.append(&mut after);
        proof {
            assert(texts_of(dirs@) =~= a + b + c);
        }
        Ok(dirs)
    }
}

/// Where the output of a run goes.
#[derive(Clone, Debug, PartialEq)]
pub struct OutputTo {
    pub read_only: bool,
    pub print: bool,
    pub out_dir: Option<String>,
}

impl Default for OutputTo {
    /// Write each file back to where it was read.
    fn default() -> (r: Self)
        ensures
            !r.read_only,
            !r.print,
            r.out_dir is None,
    {
        Self { read_only: false, print: false, out_dir: None }
    }
}

impl OutputTo {
    /// Print, and write nothing.
    pub fn stdout() -> (r: Self)
        ensures
            r.read_only,
            r.print,
            r.out_dir is None,
    {
        Self { read_only: true, print: true, out_dir: None }
    }

    /// Write each file back to where it was read.
    pub fn file() -> (r: Self)
        ensures
            !r.read_only,
            !r.print,
            r.out_dir is None,
    {
        Self { read_only: false, print: false, out_dir: None }
    }

    /// Write to `path`.
    pub fn different_file(path: &str) -> (r: Self)
        ensures
            !r.read_only,
            !r.print,
            text_of(r.out_dir) == Some(path@),
    {
        Self { read_only: false, print: false, out_dir: Some(String::from_str(path)) }
    }
}

/// What the command line holds.
#[derive(Debug, Clone)]
pub struct Args {
    /// A list of files to transform
    pub files: Vec<String>,
    /// An optional path to output the generated file to.
    /// If not present, the files will be inserted inline
    pub out_dir: Option<String>,
    /// Override the opening tag for a command block
    pub open_tag: Option<String>,
    /// Override the closing tag for a command block
    pub close_tag: Option<String>,
    /// Override the 'end' command name
    pub end_command: Option<String>,
    /// The base directory used to reference imported files
    pub base_dir: Option<String>,
    /// Working directories that may contain a configuration file
    pub working_dir: Vec<String>,
    /// Ignore configuration files in the working directory
    pub ignore_config: bool,
    /// A custom configuration file
    pub config: Option<String>,
    /// If true, the output is not written back to the file
    pub read_only: bool,
    /// Scan all subdirectories for configuration files
    pub recursive: bool,
    /// Custom globs used to match configuration files
    pub glob: Vec<String>,
    /// Print the transformed files
    pub print: bool,
}

impl Default for Args {
    /// A command line that names nothing and sets nothing.
    fn default() -> (r: Self)
        ensures
            r.files@.len() == 0,
            r.out_dir is None,
            r.open_tag is None,
            r.close_tag is None,
            r.end_command is None,
            r.base_dir is None,
            r.working_dir@.len() == 0,
            !r.ignore_config,
            r.config is None,
            !r.read_only,
            !r.recursive,
            r.glob@.len() == 0,
            !r.print,
    {
        Args {
            files: Vec::new(),
            out_dir: None,
            open_tag: None,
            close_tag: None,
            end_command: None,
            base_dir: None,
            working_dir: Vec::new(),
            ignore_config: false,
            config: None,
            read_only: false,
            recursive: false,
            glob: Vec::new(),
            print: false,
        }
    }
}

/// `over` where it is there, else `under`.
pub open spec fn overridden(over: Option<Seq<char>>, under: Seq<char>) -> Seq<char> {
    match over {
        Some(t) => t,
        None => under,
    }
}

fn override_with(over: Option<String>, under: String) -> (r: String)
    ensures
        r@ == overridden(text_of(over), under@),
{
    match over {
        Some(t) => t,
        None => under,
    }
}

/// What a run works with: the parser configuration, the files to process,
/// and where the output goes.
pub struct Plan {
    pub parser: ParserConfig,
    pub files: Vec<String>,
    pub output: OutputTo,
}

impl Args {
    /// Puts the command line and a configuration file together. The
    /// configuration file, where there is one, gives the tags, the end
    /// command, the base directory, the output directory and the files, and
    /// the files of the command line are not used; without one the defaults
    /// hold and the files are those of the command line. What the command
    /// line sets of the tags, the end command, the base directory and the
    /// output directory then takes the place of what the file says.
    pub fn resolve(self, config: Option<ConfigAndPath>) -> (r: Result<Plan, ConfigError>)
        ensures
            match config {
                Some(c) => match parent_of(c.path@) {
                    None => r is Err && r->Err_0 == ConfigError::NoParent,
                    Some(p) => r is Ok && ({
                        let plan = r->Ok_0;
                        &&& plan.parser.tags.opening@ == overridden(
                            text_of(self.open_tag),
                            c.config.open_tag@,
                        )
                        &&& plan.parser.tags.closing@ == overridden(
                            text_of(self.close_tag),
                            c.config.close_tag@,
                        )
                        &&& plan.parser.end_command@ == overridden(
                            text_of(self.end_command),
                            c.config.end_command@,
                        )
                        &&& plan.parser.base_dir@ == overridden(
                            text_of(self.base_dir),
                            joined_path(p, c.config.base_dir@),
                        )
                        &&& texts_of(plan.files@) == joined_all(p, texts_of(c.config.files@))
                        &&& text_of(plan.output.out_dir) == match self.out_dir {
                            Some(d) => Some(d@),
                            None => match c.config.out_dir {
                                Some(d) => Some(joined_path(p, d@)),
                                None => None,
                            },
                        }
                        &&& plan.output.read_only == self.read_only
                        &&& plan.output.print == self.print
                    }),
                },
                None => r is Ok && ({
                    let plan = r->Ok_0;
                    &&& plan.parser.tags.opening@ == overridden(
                        text_of(self.open_tag),
                        DEFAULT_TAG_BEGIN@,
                    )
                    &&& plan.parser.tags.closing@ == overridden(
                        text_of(self.close_tag),
                        DEFAULT_TAG_END@,
                    )
                    &&& plan.parser.end_command@ == overridden(
                        text_of(self.end_command),
                        DEFAULT_END_COMMAND@,
                    )
                    &&& plan.parser.base_dir@ == overridden(
                        text_of(self.base_dir),
                        Seq::<char>::empty(),
                    )
                    &&& plan.files == self.files
                    &&& text_of(plan.output.out_dir) == text_of(self.out_dir)
                    &&& plan.output.read_only == self.read_only
                    &&& plan.output.print == self.print
                }),
            },
    {
        let mut out_dir: Option<String> = None;
        let (parser, files) = match config {
            Some(c) => {
                let parent = match c.parent_path() {
                    Ok(p) => p,
                    Err(e) => {
                        return Err(e);
                    },
                };
                out_dir = match &c.config.out_dir {
                    Some(d) => Some(path_join(parent.as_str(), d.as_str())),
                    None => None,
                };
                match c.into_parser() {
                    Ok(x) => x,
                    Err(e) => {
                        return Err(e);
                    },
                }
            },
            None => (ParserConfig::default(), self.files),
        };
        let out_dir = match self.out_dir {
            Some(d) => Some(d),
            None => out_dir,
        };
        let opening = override_with(self.open_tag, parser.tags.opening);
        let closing = override_with(self.close_tag, parser.tags.closing);
        let end_command = override_with(self.end_command, parser.end_command);
        let base_dir = override_with(self.base_dir, parser.base_dir);
        Ok(
            Plan {
                parser: ParserConfig {
                    tags: CommandTags { opening, closing },
                    end_command,
                    base_dir,
                },
                files,
                output: OutputTo { read_only: self.read_only, print: self.print, out_dir },
            },
        )
    }
}

} // verus!
