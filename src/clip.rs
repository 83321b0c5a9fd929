use vstd::prelude::*;
use vstd::string::*;
use vstd::std_specs::iter::IteratorSpec;

use std::hash::{Hash, Hasher};

verus! {

broadcast use vstd::string::group_string_axioms;

/// What `DefaultHasher` yields for a text capture.
pub uninterp spec fn text_digest(text: Seq<char>) -> u64;

/// What `DefaultHasher` yields for in-memory image bytes and their mime type.
pub uninterp spec fn image_digest(data: Seq<u8>, mime: Seq<char>) -> u64;

/// What `DefaultHasher` yields for a file path (as a `Path`) and its mime type.
pub uninterp spec fn file_digest(path: Seq<char>, mime: Seq<char>) -> u64;

/// The last component of a path, as `Path::file_name` reports it.
pub uninterp spec fn file_name_of(path: Seq<char>) -> Option<Seq<char>>;

/// Relies on `DefaultHasher::new` (every instance starts from the same
/// keys, so no per-process seed), `String`'s `Hash` and `Hasher::finish`: the
/// value depends on the text alone.
#[verifier::external_body]
fn digest_text(text: &String) -> (r: u64)
    ensures
        r == text_digest(text@),
{
    let mut hasher = std::collections::hash_map::DefaultHasher::new();
    text.hash(&mut hasher);
    hasher.finish()
}

/// Relies on `DefaultHasher::new` (same keys for every instance) fed the
/// byte vector and then the mime string: the value depends on them alone.
#[verifier::external_body]
fn digest_image(data: &Vec<u8>, mime: &String) -> (r: u64)
    ensures
        r == image_digest(data@, mime@),
{
    let mut hasher = std::collections::hash_map::DefaultHasher::new();
    data.hash(&mut hasher);
    mime.hash(&mut hasher);
    hasher.finish()
}

/// Relies on `DefaultHasher::new` (same keys for every instance) fed
/// `Path::new(path)` and then the mime string: the value depends on them
/// alone; the file's bytes are never read.
#[verifier::external_body]
fn digest_file(path: &String, mime: &String) -> (r: u64)
    ensures
        r == file_digest(path@, mime@),
{
    let mut hasher = std::collections::hash_map::DefaultHasher::new();
    std::path::Path::new(path).hash(&mut hasher);
    mime.hash(&mut hasher);
    hasher.finish()
}

/// Relies on `Path::file_name`, read back as a string (lossily, which never
/// alters text that came from a `String`).
#[verifier::external_body]
pub(crate) fn path_file_name(path: &String) -> (r: Option<String>)
    ensures
        r matches Some(n) ==> file_name_of(path@) == Some(n@),
        r is None ==> file_name_of(path@) is None,
{
    std::path::Path::new(path).file_name().map(|n| n.to_string_lossy().into_owned())
}

/// The decimal digit for `d < 10`.
pub open spec fn digit_char(d: nat) -> char {
    if d == 0 { '0' }
    else if d == 1 { '1' }
    else if d == 2 { '2' }
    else if d == 3 { '3' }
    else if d == 4 { '4' }
    else if d == 5 { '5' }
    else if d == 6 { '6' }
    else if d == 7 { '7' }
    else if d == 8 { '8' }
    else { '9' }
}

/// Relies on `String::push`: the character is appended.
#[verifier::external_body]
pub(crate) fn push_char(s: &mut String, c: char)
    ensures
        final(s)@ == old(s)@.push(c),
{
    s.push(c)
}

fn digit_of(d: usize) -> (c: char)
    requires
        d < 10,
    ensures
        c == digit_char(d as nat),
{
    if d == 0 { '0' }
    else if d == 1 { '1' }
    else if d == 2 { '2' }
    else if d == 3 { '3' }
    else if d == 4 { '4' }
    else if d == 5 { '5' }
    else if d == 6 { '6' }
    else if d == 7 { '7' }
    else if d == 8 { '8' }
    else { '9' }
}

/// `n` written in decimal.
fn decimal_string(n: usize) -> (r: String)
    ensures
        r@ == decimal(n as nat),
{
    let mut m: usize = n;
    let mut tail: Vec<char> = Vec::new();
    while m >= 10
        invariant
            decimal(n as nat) == decimal(m as nat) + tail@,
        decreases m,
    {
        let c = digit_of(m % 10);
        proof {
            assert(decimal(m as nat) == decimal((m / 10) as nat).push(c));
            assert(decimal((m / 10) as nat).push(c) + tail@ =~= decimal((m / 10) as nat) + seq![c].add(tail@));
        }
        let ghost before = tail@;
        tail.insert(0, c);
        proof {
            assert(tail@ =~= seq![c].add(before));
        }
        m = m / 10;
    }
    let mut r = String::new();
    push_char(&mut r, digit_of(m));
    let mut i: usize = 0;
    while i < tail.len()
        invariant
            i <= tail.len(),
            r@ == decimal(m as nat) + tail@.take(i as int),
            m < 10,
        decreases tail.len() - i,
    {
        push_char(&mut r, tail[i]);
        proof {
            assert(tail@.take(i + 1) =~= tail@.take(i as int).push(tail@[i as int]));
        }
        i = i + 1;
    }
    proof {
        assert(tail@.take(i as int) =~= tail@);
    }
    r
}

/// Decimal notation of `n`, without leading zeros.
pub open spec fn decimal(n: nat) -> Seq<char>
    decreases n,
{
    if n < 10 {
        seq![digit_char(n)]
    } else {
        decimal(n / 10).push(digit_char(n % 10))
    }
}

/// Content type for clipboard entries.
#[derive(Debug, Clone, PartialEq)]
pub enum ClipContent {
    /// Text content.
    Text(String),
    /// Image bytes held in memory.
    Image { data: Vec<u8>, mime_type: String },
    /// A reference to a file on disk.
    File { path: String, mime_type: String },
}

/// Index of the first `'\n'` in `s`, or `s.len()` when there is none.
pub open spec fn newline_index(s: Seq<char>) -> nat
    decreases s.len(),
{
    if s.len() == 0 {
        0
    } else if s[0] == '\n' {
        0
    } else {
        1 + newline_index(s.drop_first())
    }
}

/// The first line of `s` as `str::lines` yields it: up to the first `'\n'`,
/// less a `'\r'` just before it; the empty sequence for empty input.
pub open spec fn first_line(s: Seq<char>) -> Seq<char> {
    let p = newline_index(s);
    let line = s.take(p as int);
    if p < s.len() && line.len() > 0 && line.last() == '\r' {
        line.drop_last()
    } else {
        line
    }
}

/// A line cut to `max_len` characters, with `...` appended when it was cut.
pub open spec fn truncated(line: Seq<char>, max_len: nat) -> Seq<char> {
    if line.len() > max_len {
        line.take(max_len as int) + seq!['.', '.', '.']
    } else {
        line
    }
}

impl ClipContent {
    /// The dedup hash of this content (kind-specific; files by path and mime).
    pub open spec fn spec_hash(&self) -> u64 {
        match self {
            ClipContent::Text(t) => text_digest(t@),
            ClipContent::Image { data, mime_type } => image_digest(data@, mime_type@),
            ClipContent::File { path, mime_type } => file_digest(path@, mime_type@),
        }
    }

    /// The one-line preview of this content.
    pub open spec fn spec_preview(&self, max_len: nat) -> Seq<char> {
        match self {
            ClipContent::Text(t) => truncated(first_line(t@), max_len),
            ClipContent::Image { data, mime_type } =>
                "[Image: "@ + mime_type@ + " ("@ + decimal(data@.len()) + " bytes)]"@,
            ClipContent::File { path, mime_type } =>
                "[File: "@ + mime_type@ + " ("@ + match file_name_of(path@) {
                    Some(n) => n,
                    None => "unknown"@,
                } + ")]"@,
        }
    }

    /// Check if this is text content.
    pub fn is_text(&self) -> (r: bool)
        ensures
            r == self is Text,
    {
        matches!(self, ClipContent::Text(_))
    }

    /// Check if this is image content.
    pub fn is_image(&self) -> (r: bool)
        ensures
            r == self is Image,
    {
        matches!(self, ClipContent::Image { .. })
    }

    /// Check if this is a file reference.
    pub fn is_file(&self) -> (r: bool)
        ensures
            r == self is File,
    {
        matches!(self, ClipContent::File { .. })
    }

    /// Content hash for deduplication. A file reference is hashed by path and
    /// mime type only, never by the file's bytes.
    pub fn content_hash(&self) -> (r: u64)
        ensures
            r == self.spec_hash(),
    {
        match self {
            ClipContent::Text(text) => digest_text(text),
            ClipContent::Image { data, mime_type } => digest_image(data, mime_type),
            ClipContent::File { path, mime_type } => digest_file(path, mime_type),
        }
    }

    /// A preview string: the first line of text cut to `max_len` characters,
    /// or a bracketed description of an image or file.
    pub fn preview(&self, max_len: usize) -> (r: String)
        ensures
            r@ == self.spec_preview(max_len as nat),
    {
        match self {
            ClipContent::Text(text) => {
                let line = first_line_of(text.as_str());
                if line.unicode_len() > max_len {
                    let head = line.substring_char(0, max_len);
                    let r = head.to_owned().concat("...");
                    proof {
                        reveal_strlit("...");
                        assert(r@ =~= truncated(first_line(text@), max_len as nat));
                    }
                    r
                } else {
                    line.to_owned()
                }
            },
            ClipContent::Image { data, mime_type } => {
                let mut r = String::from_str("[Image: ");
                r.append(mime_type.as_str());
                r.append(" (");
                let digits = decimal_string(data.len());
                r.append(digits.as_str());
                r.append(" bytes)]");
                r
            },
            ClipContent::File { path, mime_type } => {
                let mut r = String::from_str("[File: ");
                r.append(mime_type.as_str());
                r.append(" (");
                match path_file_name(path) {
                    Some(n) => r.append(n.as_str()),
                    None => r.append("unknown"),
                }
                r.append(")]");
                r
            },
        }
    }
}

/// The first line of `s` (see `first_line`), as a slice of `s`.
fn first_line_of(s: &str) -> (r: &str)
    ensures
        r@ == first_line(s@),
{
    let n = s.unicode_len();
    let mut it = s.chars();
    let mut p: usize = 0;
    let mut found = false;
    while p < n
        invariant_except_break
            it.remaining() == s@.skip(p as int),
            !found,
        invariant
            n == s@.len(),
            p <= n,
            forall|j: int| 0 <= j < p ==> s@[j] != '\n',
        ensures
            found ==> p < n && s@[p as int] == '\n',
            !found ==> p == n,
        decreases n - p,
    {
        let c = it.next();
        match c {
            Some(ch) => {
                assert(s@.skip(p as int)[0] == s@[p as int]);
                if ch == '\n' {
                    found = true;
                    break;
                }
                assert(s@.skip(p as int).drop_first() =~= s@.skip(p + 1));
                p = p + 1;
            },
            None => {
                break;
            },
        }
    }
    proof {
        lemma_newline_index(s@, p as int);
    }
    let line = s.substring_char(0, p);
    if found && p > 0 && line.get_char(p - 1) == '\r' {
        s.substring_char(0, p - 1)
    } else {
        line
    }
}

/// `newline_index` finds the first `'\n'`.
proof fn lemma_newline_index(s: Seq<char>, p: int)
    requires
        0 <= p <= s.len(),
        forall|j: int| 0 <= j < p ==> s[j] != '\n',
        p == s.len() || s[p] == '\n',
    ensures
        newline_index(s) == p,
    decreases p,
{
    if p > 0 {
        assert(s.len() > 0 && s[0] != '\n');
        let t = s.drop_first();
        assert forall|j: int| 0 <= j < p - 1 implies t[j] != '\n' by {
            assert(t[j] == s[j + 1]);
        }
        if p < s.len() {
            assert(t[p - 1] == s[p]);
        }
        lemma_newline_index(t, p - 1);
    }
}

/// The mathematical value of a `ClipContent`.
pub enum ContentModel {
    Text(Seq<char>),
    Image(Seq<u8>, Seq<char>),
    File(Seq<char>, Seq<char>),
}

impl View for ClipContent {
    type V = ContentModel;

    open spec fn view(&self) -> ContentModel {
        match self {
            ClipContent::Text(t) => ContentModel::Text(t@),
            ClipContent::Image { data, mime_type } => ContentModel::Image(data@, mime_type@),
            ClipContent::File { path, mime_type } => ContentModel::File(path@, mime_type@),
        }
    }
}

impl ContentModel {
    /// The dedup hash of content with this value.
    pub open spec fn hash(self) -> u64 {
        match self {
            ContentModel::Text(t) => text_digest(t),
            ContentModel::Image(d, m) => image_digest(d, m),
            ContentModel::File(p, m) => file_digest(p, m),
        }
    }
}

/// The value of an optional string.
pub open spec fn opt_view(o: Option<String>) -> Option<Seq<char>> {
    match o {
        Some(s) => Some(s@),
        None => None,
    }
}

/// The mathematical value of a `ClipEntry`.
pub struct EntryModel {
    pub id: u64,
    pub content: ContentModel,
    pub timestamp: u64,
    pub pinned: bool,
    pub name: Option<Seq<char>>,
    pub description: Option<Seq<char>>,
    pub temporary_registers: Seq<char>,
    pub permanent_registers: Seq<char>,
    pub content_hash: u64,
}

impl EntryModel {
    /// Pinned or holding a register: exempt from rotation.
    pub open spec fn is_protected(self) -> bool {
        self.pinned || self.temporary_registers.len() > 0 || self.permanent_registers.len() > 0
    }

    /// A duplicate capture seen at `now`: the time is bumped, and a name or
    /// description is replaced only by a supplied, non-empty one.
    pub open spec fn touched(
        self,
        name: Option<Seq<char>>,
        description: Option<Seq<char>>,
        now: u64,
    ) -> EntryModel {
        EntryModel {
            timestamp: now,
            name: if supplied(name) { name } else { self.name },
            description: if supplied(description) { description } else { self.description },
            ..self
        }
    }
}

/// A value was given and it is not empty.
pub open spec fn supplied(o: Option<Seq<char>>) -> bool {
    o matches Some(v) && v.len() > 0
}

/// A freshly captured entry: unpinned, no registers, hash of its content.
pub open spec fn fresh_entry(
    id: u64,
    content: ContentModel,
    name: Option<Seq<char>>,
    description: Option<Seq<char>>,
    now: u64,
) -> EntryModel {
    EntryModel {
        id,
        content,
        timestamp: now,
        pinned: false,
        name,
        description,
        temporary_registers: Seq::empty(),
        permanent_registers: Seq::empty(),
        content_hash: content.hash(),
    }
}

/// Relies on `SystemTime::now`: nanoseconds since the Unix epoch (0 for a
/// clock set before it). Nothing is promised of the value.
#[verifier::external_body]
pub(crate) fn clock_now() -> u64 {
    std::time::SystemTime::now()
        .duration_since(std::time::UNIX_EPOCH)
        .map(|d| d.as_nanos() as u64)
        .unwrap_or(0)
}

/// Relies on `Path::exists`: whether the file system reports something at
/// `path` right now. Nothing is promised of the value.
#[verifier::external_body]
fn path_exists(path: &String) -> bool {
    std::path::Path::new(path).exists()
}

/// A single clipboard entry with metadata.
#[derive(Debug)]
pub struct ClipEntry {
    /// Unique identifier (monotonic counter).
    pub id: u64,
    /// The clipboard content.
    pub content: ClipContent,
    /// When this entry was last seen, in nanoseconds since the Unix epoch.
    pub timestamp: u64,
    /// Whether this entry is pinned (exempt from rotation).
    pub pinned: bool,
    /// Optional human-readable name.
    pub name: Option<String>,
    /// Optional description.
    pub description: Option<String>,
    /// Temporary registers assigned to this clip.
    pub temporary_registers: Vec<char>,
    /// Permanent registers assigned to this clip.
    pub permanent_registers: Vec<char>,
    /// Content hash for deduplication.
    pub content_hash: u64,
}

impl View for ClipEntry {
    type V = EntryModel;

    open spec fn view(&self) -> EntryModel {
        EntryModel {
            id: self.id,
            content: self.content@,
            timestamp: self.timestamp,
            pinned: self.pinned,
            name: opt_view(self.name),
            description: opt_view(self.description),
            temporary_registers: self.temporary_registers@,
            permanent_registers: self.permanent_registers@,
            content_hash: self.content_hash,
        }
    }
}

pub(crate) fn clone_opt(o: &Option<String>) -> (r: Option<String>)
    ensures
        opt_view(r) == opt_view(*o),
{
    match o {
        Some(s) => Some(s.clone()),
        None => None,
    }
}

fn clone_keys(v: &Vec<char>) -> (r: Vec<char>)
    ensures
        r@ == v@,
{
    let r = v.clone();
    assert(r@ =~= v@);
    r
}

impl ClipContent {
    /// A copy of this content.
    pub fn duplicate(&self) -> (r: ClipContent)
        ensures
            r@ == self@,
    {
        match self {
            ClipContent::Text(t) => ClipContent::Text(t.clone()),
            ClipContent::Image { data, mime_type } => {
                let d = data.clone();
                assert(d@ =~= data@);
                ClipContent::Image { data: d, mime_type: mime_type.clone() }
            },
            ClipContent::File { path, mime_type } => ClipContent::File {
                path: path.clone(),
                mime_type: mime_type.clone(),
            },
        }
    }
}

impl ClipEntry {
    /// An entry for `content` captured at `now`.
    pub fn new_at(
        id: u64,
        content: ClipContent,
        name: Option<String>,
        description: Option<String>,
        now: u64,
    ) -> (r: ClipEntry)
        ensures
            r@ == fresh_entry(id, content@, opt_view(name), opt_view(description), now),
    {
        let content_hash = content.content_hash();
        let r = ClipEntry {
            id,
            content,
            timestamp: now,
            pinned: false,
            name,
            description,
            temporary_registers: Vec::new(),
            permanent_registers: Vec::new(),
            content_hash,
        };
        assert(r@.temporary_registers =~= Seq::<char>::empty());
        assert(r@.permanent_registers =~= Seq::<char>::empty());
        r
    }

    /// Create a new text entry, stamped with the current time.
    pub fn new_text(id: u64, text: String) -> (r: ClipEntry)
        ensures
            r@ == fresh_entry(id, ContentModel::Text(text@), None, None, r.timestamp),
    {
        ClipEntry::new_at(id, ClipContent::Text(text), None, None, clock_now())
    }

    /// Create a new in-memory image entry, stamped with the current time.
    pub fn new_image(id: u64, data: Vec<u8>, mime_type: String) -> (r: ClipEntry)
        ensures
            r@ == fresh_entry(
                id,
                ContentModel::Image(data@, mime_type@),
                None,
                None,
                r.timestamp,
            ),
    {
        ClipEntry::new_at(id, ClipContent::Image { data, mime_type }, None, None, clock_now())
    }

    /// Create a new file reference entry, stamped with the current time.
    pub fn new_file(id: u64, path: String, mime_type: String) -> (r: ClipEntry)
        ensures
            r@ == fresh_entry(
                id,
                ContentModel::File(path@, mime_type@),
                None,
                None,
                r.timestamp,
            ),
    {
        ClipEntry::new_at(id, ClipContent::File { path, mime_type }, None, None, clock_now())
    }

    /// Create from existing content with optional metadata, stamped with the
    /// current time.
    pub fn new_with_metadata(
        id: u64,
        content: ClipContent,
        name: Option<String>,
        description: Option<String>,
    ) -> (r: ClipEntry)
        ensures
            r@ == fresh_entry(id, content@, opt_view(name), opt_view(description), r.timestamp),
    {
        ClipEntry::new_at(id, content, name, description, clock_now())
    }

    /// A copy of this entry.
    pub fn duplicate(&self) -> (r: ClipEntry)
        ensures
            r@ == self@,
    {
        ClipEntry {
            id: self.id,
            content: self.content.duplicate(),
            timestamp: self.timestamp,
            pinned: self.pinned,
            name: clone_opt(&self.name),
            description: clone_opt(&self.description),
            temporary_registers: clone_keys(&self.temporary_registers),
            permanent_registers: clone_keys(&self.permanent_registers),
            content_hash: self.content_hash,
        }
    }

    /// A preview string for this entry.
    pub fn preview(&self, max_len: usize) -> (r: String)
        ensures
            r@ == self.content.spec_preview(max_len as nat),
    {
        self.content.preview(max_len)
    }

    /// Whether `other` has the same content hash.
    pub fn is_duplicate(&self, other: &ClipEntry) -> (r: bool)
        ensures
            r == (self.content_hash == other.content_hash),
    {
        self.content_hash == other.content_hash
    }

    /// Flip the pinned flag.
    pub fn toggle_pin(&mut self)
        ensures
            final(self)@ == (EntryModel { pinned: !old(self).pinned, ..old(self)@ }),
    {
        self.pinned = !self.pinned;
    }

    /// Set the last-seen time to `now`.
    pub fn bump_timestamp_to(&mut self, now: u64)
        ensures
            final(self)@ == (EntryModel { timestamp: now, ..old(self)@ }),
    {
        self.timestamp = now;
    }

    /// Set the last-seen time to the current time.
    pub fn bump_timestamp(&mut self)
        ensures
            final(self)@ == (EntryModel { timestamp: final(self).timestamp, ..old(self)@ }),
    {
        self.bump_timestamp_to(clock_now());
    }

    /// Whether the referenced file exists; text and images always exist.
    pub fn file_exists(&self) -> (r: bool)
        ensures
            !(self.content is File) ==> r,
    {
        match &self.content {
            ClipContent::File { path, .. } => path_exists(path),
            _ => true,
        }
    }

    /// Whether this entry refers to a file that is missing; never for text
    /// or images.
    pub fn has_missing_file(&self) -> (r: bool)
        ensures
            !(self.content is File) ==> !r,
    {
        match &self.content {
            ClipContent::File { path, .. } => !path_exists(path),
            _ => false,
        }
    }

    /// Pinned or holding a register: exempt from rotation and clearing.
    pub fn should_keep(&self) -> (r: bool)
        ensures
            r == self@.is_protected(),
    {
        self.pinned || !self.temporary_registers.is_empty() || !self.permanent_registers.is_empty()
    }

    /// Entries holding a permanent register cannot be deleted.
    pub fn can_delete(&self) -> (r: bool)
        ensures
            r == (self.permanent_registers@.len() == 0),
    {
        self.permanent_registers.is_empty()
    }

    /// Add a temporary register key, once.
    pub fn add_temporary_register(&mut self, key: char)
        ensures
            final(self)@ == (EntryModel {
                temporary_registers: with_key(old(self).temporary_registers@, key),
                ..old(self)@
            }),
    {
        add_key(&mut self.temporary_registers, key);
    }

    /// Remove a temporary register key.
    pub fn remove_temporary_register(&mut self, key: char)
        ensures
            final(self)@ == (EntryModel {
                temporary_registers: without_key(old(self).temporary_registers@, key),
                ..old(self)@
            }),
    {
        remove_key(&mut self.temporary_registers, key);
    }

    /// Add a permanent register key, once.
    pub fn add_permanent_register(&mut self, key: char)
        ensures
            final(self)@ == (EntryModel {
                permanent_registers: with_key(old(self).permanent_registers@, key),
                ..old(self)@
            }),
    {
        add_key(&mut self.permanent_registers, key);
    }

    /// Remove a permanent register key.
    pub fn remove_permanent_register(&mut self, key: char)
        ensures
            final(self)@ == (EntryModel {
                permanent_registers: without_key(old(self).permanent_registers@, key),
                ..old(self)@
            }),
    {
        remove_key(&mut self.permanent_registers, key);
    }
}

/// `keys` with `key` appended unless already present.
pub open spec fn with_key(keys: Seq<char>, key: char) -> Seq<char> {
    if keys.contains(key) { keys } else { keys.push(key) }
}

/// `keys` with every occurrence of `key` dropped.
pub open spec fn without_key(keys: Seq<char>, key: char) -> Seq<char> {
    keys.filter(differs_from(key))
}

/// The predicate "is not `key`".
pub open spec fn differs_from(key: char) -> spec_fn(char) -> bool {
    |k: char| k != key
}

/// Membership after adding or dropping a key.
pub proof fn lemma_key_sets(keys: Seq<char>, key: char, k: char)
    ensures
        with_key(keys, key).contains(k) <==> (keys.contains(k) || k == key),
        without_key(keys, key).contains(k) <==> (keys.contains(k) && k != key),
{
    broadcast use vstd::seq_lib::group_filter_ensures;

    if keys.contains(k) && k != key {
        let i = choose|i: int| 0 <= i < keys.len() && keys[i] == k;
        keys.lemma_filter_contains(differs_from(key), i);
    }
    if without_key(keys, key).contains(k) {
        keys.lemma_filter_contains_rev(differs_from(key), k);
        let f = keys.filter(differs_from(key));
        let j = choose|j: int| 0 <= j < f.len() && f[j] == k;
        keys.lemma_filter_pred(differs_from(key), j);
    }
    if !keys.contains(key) {
        assert(keys.push(key)[keys.len() as int] == key);
        if keys.contains(k) {
            let i = choose|i: int| 0 <= i < keys.len() && keys[i] == k;
            assert(keys.push(key)[i] == k);
        }
        if keys.push(key).contains(k) && k != key {
            let i = choose|i: int| 0 <= i < keys.len() + 1 && keys.push(key)[i] == k;
            assert(keys[i] == k);
        }
    }
}

fn add_key(keys: &mut Vec<char>, key: char)
    ensures
        final(keys)@ == with_key(old(keys)@, key),
{
    let mut i: usize = 0;
    while i < keys.len()
        invariant
            i <= keys.len(),
            forall|j: int| 0 <= j < i ==> keys@[j] != key,
        decreases keys.len() - i,
    {
        if keys[i] == key {
            return;
        }
        i = i + 1;
    }
    keys.push(key);
}

fn remove_key(keys: &mut Vec<char>, key: char)
    ensures
        final(keys)@ == without_key(old(keys)@, key),
{
    let mut kept: Vec<char> = Vec::new();
    let mut i: usize = 0;
    while i < keys.len()
        invariant
            i <= keys.len(),
            kept@ == keys@.take(i as int).filter(differs_from(key)),
        decreases keys.len() - i,
    {
        proof {
            assert(keys@.take(i + 1) =~= keys@.take(i as int).push(keys@[i as int]));
            keys@.take(i as int).lemma_filter_push(keys@[i as int], differs_from(key));
        }
        if keys[i] != key {
            kept.push(keys[i]);
        }
        i = i + 1;
    }
    assert(keys@.take(i as int) =~= keys@);
    *keys = kept;
}

} // verus!
