use vstd::prelude::*;
use vstd::string::*;

use crate::clip::{clone_opt, opt_view, ClipContent, ContentModel};

verus! {

broadcast use vstd::string::group_string_axioms;

/// Default cap on unprotected history entries.
pub const DEFAULT_MAX_HISTORY: usize = 1000;

/// Default largest accepted image, in bytes (50 MiB).
pub const DEFAULT_MAX_IMAGE_SIZE: u64 = 52428800;

/// Default largest image kept in memory rather than in a file (5 MiB).
pub const DEFAULT_MAX_IMAGE_MEMORY_SIZE: u64 = 5242880;

/// Default largest image file that gets a preview (10 MiB).
pub const DEFAULT_MAX_IMAGE_PREVIEW_SIZE: u64 = 10485760;

/// Default capacity of the decoded-image cache.
pub const DEFAULT_IMAGE_CACHE_SIZE: usize = 20;

/// General configuration settings.
#[derive(Debug, Clone)]
pub struct GeneralConfig {
    /// Maximum number of unprotected clipboard entries to keep.
    pub max_history: usize,
    /// Maximum image size in bytes (larger images are rejected).
    pub max_image_size_bytes: u64,
    /// Images up to this size are stored in memory, larger ones in a file.
    pub max_image_memory_size_bytes: u64,
    /// Largest image file that is previewed.
    pub max_image_preview_size_bytes: u64,
    /// Exit the list view after selecting a clip.
    pub exit_on_select: bool,
    /// Enable debug logging.
    pub debug_logging: bool,
    /// Capacity of the decoded-image cache (0 stands for the default).
    pub image_cache_size: usize,
}

/// The default cap on history entries.
pub fn default_max_history() -> (r: usize)
    ensures
        r == DEFAULT_MAX_HISTORY,
{
    DEFAULT_MAX_HISTORY
}

/// The default largest accepted image.
pub fn default_max_image_size() -> (r: u64)
    ensures
        r == DEFAULT_MAX_IMAGE_SIZE,
{
    DEFAULT_MAX_IMAGE_SIZE
}

/// The default in-memory image threshold.
pub fn default_max_image_memory_size() -> (r: u64)
    ensures
        r == DEFAULT_MAX_IMAGE_MEMORY_SIZE,
{
    DEFAULT_MAX_IMAGE_MEMORY_SIZE
}

/// The default largest previewed image file.
pub fn default_max_image_preview_size() -> (r: u64)
    ensures
        r == DEFAULT_MAX_IMAGE_PREVIEW_SIZE,
{
    DEFAULT_MAX_IMAGE_PREVIEW_SIZE
}

/// By default the list view exits after a selection.
pub fn default_exit_on_select() -> (r: bool)
    ensures
        r,
{
    true
}

impl Default for GeneralConfig {
    fn default() -> (r: GeneralConfig)
        ensures
            r.max_history == DEFAULT_MAX_HISTORY,
            r.max_image_size_bytes == DEFAULT_MAX_IMAGE_SIZE,
            r.max_image_memory_size_bytes == DEFAULT_MAX_IMAGE_MEMORY_SIZE,
            r.max_image_preview_size_bytes == DEFAULT_MAX_IMAGE_PREVIEW_SIZE,
            r.exit_on_select,
            !r.debug_logging,
            r.image_cache_size == DEFAULT_IMAGE_CACHE_SIZE,
    {
        GeneralConfig {
            max_history: default_max_history(),
            max_image_size_bytes: default_max_image_size(),
            max_image_memory_size_bytes: default_max_image_memory_size(),
            max_image_preview_size_bytes: default_max_image_preview_size(),
            exit_on_select: default_exit_on_select(),
            debug_logging: false,
            image_cache_size: DEFAULT_IMAGE_CACHE_SIZE,
        }
    }
}

/// Value of a configured permanent register: inline text or a file
/// reference, with optional name and description.
#[derive(Debug, Clone)]
pub enum PermanentRegisterValue {
    /// Inline text content.
    Inline { content: String, name: Option<String>, description: Option<String> },
    /// A file reference with an optional mime type.
    File {
        file: String,
        mime_type: Option<String>,
        name: Option<String>,
        description: Option<String>,
    },
}

/// The mime type assumed for a file register without one.
pub open spec fn octet_stream() -> Seq<char> {
    "application/octet-stream"@
}

impl PermanentRegisterValue {
    /// The entry content this register stands for.
    pub open spec fn spec_content(&self) -> ContentModel {
        match self {
            PermanentRegisterValue::Inline { content, .. } => ContentModel::Text(content@),
            PermanentRegisterValue::File { file, mime_type, .. } => ContentModel::File(
                file@,
                match mime_type {
                    Some(m) => m@,
                    None => octet_stream(),
                },
            ),
        }
    }

    /// The configured name.
    pub open spec fn spec_name(&self) -> Option<Seq<char>> {
        match self {
            PermanentRegisterValue::Inline { name, .. } => opt_view(*name),
            PermanentRegisterValue::File { name, .. } => opt_view(*name),
        }
    }

    /// The configured description.
    pub open spec fn spec_description(&self) -> Option<Seq<char>> {
        match self {
            PermanentRegisterValue::Inline { description, .. } => opt_view(*description),
            PermanentRegisterValue::File { description, .. } => opt_view(*description),
        }
    }

    /// The definition given by a register's fields: inline when `content`
    /// is present, else a file reference when `file` is present (other
    /// fields are ignored); `None` when neither is.
    pub fn from_fields(
        content: Option<String>,
        file: Option<String>,
        mime_type: Option<String>,
        name: Option<String>,
        description: Option<String>,
    ) -> (r: Option<PermanentRegisterValue>)
        ensures
            content is Some ==> (r matches Some(PermanentRegisterValue::Inline { content: c, name: n, description: d })
                && c@ == content->0@ && opt_view(n) == opt_view(name) && opt_view(d) == opt_view(description)),
            content is None && file is Some ==> (r matches Some(PermanentRegisterValue::File { file: f, mime_type: m, name: n, description: d })
                && f@ == file->0@ && opt_view(m) == opt_view(mime_type) && opt_view(n) == opt_view(name)
                && opt_view(d) == opt_view(description)),
            content is None && file is None ==> r is None,
    {
        match content {
            Some(c) => Some(PermanentRegisterValue::Inline { content: c, name, description }),
            None => match file {
                Some(f) => Some(PermanentRegisterValue::File { file: f, mime_type, name, description }),
                None => None,
            },
        }
    }

    /// The name field, if present.
    pub fn name(&self) -> (r: Option<&str>)
        ensures
            match r {
                Some(n) => self.spec_name() == Some(n@),
                None => self.spec_name() is None,
            },
    {
        let n = match self {
            PermanentRegisterValue::Inline { name, .. } => name,
            PermanentRegisterValue::File { name, .. } => name,
        };
        match n {
            Some(s) => Some(s.as_str()),
            None => None,
        }
    }

    /// The description field, if present.
    pub fn description(&self) -> (r: Option<&str>)
        ensures
            match r {
                Some(d) => self.spec_description() == Some(d@),
                None => self.spec_description() is None,
            },
    {
        let d = match self {
            PermanentRegisterValue::Inline { description, .. } => description,
            PermanentRegisterValue::File { description, .. } => description,
        };
        match d {
            Some(s) => Some(s.as_str()),
            None => None,
        }
    }

    /// Whether this is a file reference.
    pub fn is_file(&self) -> (r: bool)
        ensures
            r == self is File,
    {
        matches!(self, PermanentRegisterValue::File { .. })
    }

    /// The file path, for a file reference.
    pub fn file_path(&self) -> (r: Option<&String>)
        ensures
            match self {
                PermanentRegisterValue::File { file, .. } => r == Some(file),
                _ => r is None,
            },
    {
        match self {
            PermanentRegisterValue::File { file, .. } => Some(file),
            _ => None,
        }
    }

    /// The entry content, name and description this register stands for.
    pub fn to_content(&self) -> (r: (ClipContent, Option<String>, Option<String>))
        ensures
            r.0@ == self.spec_content(),
            opt_view(r.1) == self.spec_name(),
            opt_view(r.2) == self.spec_description(),
    {
        match self {
            PermanentRegisterValue::Inline { content, name, description } => (
                ClipContent::Text(content.clone()),
                clone_opt(name),
                clone_opt(description),
            ),
            PermanentRegisterValue::File { file, mime_type, name, description } => {
                let mime = match mime_type {
                    Some(m) => m.clone(),
                    None => String::from_str("application/octet-stream"),
                };
                (
                    ClipContent::File { path: file.clone(), mime_type: mime },
                    clone_opt(name),
                    clone_opt(description),
                )
            },
        }
    }
}

/// Main configuration: general settings and permanent register definitions
/// (key, value). A configuration file gives each key once; where a key
/// repeats, the later definition wins when loaded.
#[derive(Debug, Clone)]
pub struct Config {
    pub general: GeneralConfig,
    pub permanent_registers: Vec<(char, PermanentRegisterValue)>,
}

impl Config {
    /// No key is defined twice.
    pub open spec fn keys_distinct(&self) -> bool {
        forall|a: int, b: int|
            0 <= a < b < self.permanent_registers@.len() ==> self.permanent_registers@[a].0
                != self.permanent_registers@[b].0
    }

    /// Default settings and no permanent registers.
    pub fn default() -> (r: Config)
        ensures
            r.general.max_history == DEFAULT_MAX_HISTORY,
            r.general.max_image_size_bytes == DEFAULT_MAX_IMAGE_SIZE,
            r.general.max_image_memory_size_bytes == DEFAULT_MAX_IMAGE_MEMORY_SIZE,
            r.general.max_image_preview_size_bytes == DEFAULT_MAX_IMAGE_PREVIEW_SIZE,
            r.general.exit_on_select,
            !r.general.debug_logging,
            r.general.image_cache_size == DEFAULT_IMAGE_CACHE_SIZE,
            r.permanent_registers@.len() == 0,
    {
        Config { general: GeneralConfig::default(), permanent_registers: Vec::new() }
    }
}

} // verus!
