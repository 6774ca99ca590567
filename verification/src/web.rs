//! The web daemon: which requests it takes, and what it answers.

use crate::http;
use crate::json;
use crate::order;
use crate::playback::PlaybackHandle;
use crate::text;
use vstd::prelude::*;
use vstd::string::*;
use vstd::utf8::*;

verus! {

/// A file name takes at most so many bytes.
pub const MAX_NAME: usize = 255;

// ---------------------------------------------------------------------------------------------
// File names
// ---------------------------------------------------------------------------------------------

/// `c` occurs in `s`.
pub open spec fn has_char(s: Seq<char>, c: char) -> bool {
    exists|i: int| 0 <= i < s.len() && #[trigger] s[i] == c
}

/// Two dots follow each other in `s`.
pub open spec fn has_two_dots(s: Seq<char>) -> bool {
    exists|i: int| 0 <= i < s.len() - 1 && #[trigger] s[i] == '.' && s[i + 1] == '.'
}

/// The name of a hidden file.
pub open spec fn hidden(name: Seq<char>) -> bool {
    name.len() > 0 && name[0] == '.'
}

/// A name that stands for a file directly in a directory, and for nothing else: it is neither
/// empty nor too long, it is not hidden, and it cannot lead elsewhere.
pub open spec fn plain_name(name: Seq<char>) -> bool {
    &&& name.len() > 0
    &&& encode_utf8(name).len() <= MAX_NAME
    &&& !hidden(name)
    &&& !has_char(name, '/')
    &&& !has_char(name, '\\')
    &&& !has_two_dots(name)
}

/// Whether a name stands for a file directly in a directory, and for nothing else.
pub fn is_plain_name(name: &str) -> (plain: bool)
    ensures
        plain == plain_name(name@),
{
    let chars = text::char_vec(name);
    let n: usize = chars.len();
    if n == 0 || name.as_bytes().len() > MAX_NAME || chars[0] == '.' {
        return false;
    }
    let mut i: usize = 0;
    while i < n
        invariant
            n == chars@.len(),
            i <= n,
            chars@ == name@,
            forall|k: int| 0 <= k < i ==> #[trigger] chars@[k] != '/' && chars@[k] != '\\',
            forall|k: int|
                0 <= k < i && k + 1 < n ==> !(#[trigger] chars@[k] == '.' && chars@[k + 1] == '.'),
        decreases n - i,
    {
        let c = chars[i];
        if c == '/' || c == '\\' {
            assert(name@[i as int] == c);
            return false;
        }
        if c == '.' && i + 1 < n && chars[i + 1] == '.' {
            assert(name@[i as int] == '.');
            return false;
        }
        i = i + 1;
    }
    true
}

/// The place after the last dot in the first `n` characters of `s`; 0 if there is none.
pub open spec fn after_last_dot(s: Seq<char>, n: int) -> int
    decreases n,
{
    if n <= 0 || n > s.len() {
        0
    } else if s[n - 1] == '.' {
        n
    } else {
        after_last_dot(s, n - 1)
    }
}

/// The extension of a file name: what follows its last dot, if it has one.
pub open spec fn extension(name: Seq<char>) -> Option<Seq<char>> {
    let from = after_last_dot(name, name.len() as int);
    if from == 0 {
        None
    } else {
        Some(name.skip(from))
    }
}

/// The extensions of audio files, in lower case.
pub open spec fn audio_extension(ext: Seq<char>) -> bool {
    ext == "mp3"@ || ext == "flac"@ || ext == "wav"@ || ext == "ogg"@ || ext == "m4a"@ || ext
        == "aac"@
}

/// The name of an audio file, by its extension in any letter case.
pub open spec fn audio_name(name: Seq<char>) -> bool {
    match extension(name) {
        Some(ext) => audio_extension(text::ascii_lower(ext)),
        None => false,
    }
}

/// Whether a name is that of an audio file.
pub fn is_audio_name(name: &str) -> (audio: bool)
    ensures
        audio == audio_name(name@),
{
    let chars = text::char_vec(name);
    let n: usize = chars.len();
    let mut from: usize = n;
    while from > 0 && chars[from - 1] != '.'
        invariant
            n == chars@.len(),
            from <= n,
            chars@ == name@,
            after_last_dot(name@, n as int) == after_last_dot(name@, from as int),
        decreases from,
    {
        from = from - 1;
    }
    if from == 0 {
        return false;
    }
    let ext = vstd::slice::slice_subrange(chars.as_slice(), from, n);
    assert(ext@ =~= name@.skip(from as int));
    let lower = text::to_ascii_lower(ext);
    is_audio_extension(lower.as_slice())
}

fn is_audio_extension(ext: &[char]) -> (audio: bool)
    ensures
        audio == audio_extension(ext@),
{
    is_word(ext, "mp3") || is_word(ext, "flac") || is_word(ext, "wav") || is_word(ext, "ogg")
        || is_word(ext, "m4a") || is_word(ext, "aac")
}

fn is_word(s: &[char], word: &str) -> (same: bool)
    ensures
        same == (s@ == word@),
{
    let chars = text::char_vec(word);
    text::same_chars(s, chars.as_slice())
}

// ---------------------------------------------------------------------------------------------
// Listing
// ---------------------------------------------------------------------------------------------

/// What a directory holds: a name, unless it is no text, whether it is a file, and its size.
#[derive(Debug)]
pub struct FileEntry {
    pub name: Option<String>,
    pub is_file: bool,
    pub size: u64,
}

/// An audio file that can be asked for.
#[derive(Debug)]
pub struct AudioFile {
    pub name: String,
    pub size: u64,
}

/// An entry is listed if it is an audio file and is not hidden.
pub open spec fn listed(entry: FileEntry) -> bool {
    match entry.name {
        Some(name) => entry.is_file && !hidden(name@) && audio_name(name@),
        None => false,
    }
}

/// The audio files of a directory, in its own order.
pub open spec fn audio_files(entries: Seq<FileEntry>) -> Seq<AudioFile> {
    entries.filter(|e: FileEntry| listed(e)).map_values(
        |e: FileEntry| AudioFile { name: e.name->0, size: e.size },
    )
}

/// What `str::to_lowercase` makes of a text.
pub uninterp spec fn lowercase(s: Seq<char>) -> Seq<char>;

/// `s` is in ASCII.
pub open spec fn in_ascii(s: Seq<char>) -> bool {
    forall|i: int| 0 <= i < s.len() ==> #[trigger] s[i] <= '\x7f'
}

/// A text in ASCII is put in lower case letter by letter.
pub open spec fn lowered_by_letter(s: Seq<char>) -> bool {
    in_ascii(s) ==> lowercase(s) == text::ascii_lower(s)
}

/// `str::to_lowercase` puts a text in lower case, by the rules of Unicode. What it makes of it
/// depends on the text alone; of a text in ASCII, the same with its letters in lower case.
#[verifier::external_body]
fn to_lower(s: &str) -> (lower: String)
    ensures
        lower@ == lowercase(s@),
        in_ascii(s@) ==> lower@ == text::ascii_lower(s@),
{
    s.to_lowercase()
}

/// `a` comes before `b`, or is the same, character by character.
pub open spec fn text_le(a: Seq<char>, b: Seq<char>) -> bool
    decreases a.len(),
{
    if a.len() == 0 {
        true
    } else if b.len() == 0 {
        false
    } else if a[0] != b[0] {
        a[0] < b[0]
    } else {
        text_le(a.skip(1), b.skip(1))
    }
}

proof fn lemma_text_le_total(a: Seq<char>, b: Seq<char>)
    ensures
        text_le(a, b) || text_le(b, a),
    decreases a.len(),
{
    if a.len() > 0 && b.len() > 0 && a[0] == b[0] {
        lemma_text_le_total(a.skip(1), b.skip(1));
    }
}

proof fn lemma_text_le_transitive(a: Seq<char>, b: Seq<char>, c: Seq<char>)
    requires
        text_le(a, b),
        text_le(b, c),
    ensures
        text_le(a, c),
    decreases a.len(),
{
    if a.len() > 0 && b.len() > 0 && c.len() > 0 && a[0] == b[0] && b[0] == c[0] {
        lemma_text_le_transitive(a.skip(1), b.skip(1), c.skip(1));
    }
}

fn is_text_le(a: &[char], b: &[char]) -> (le: bool)
    ensures
        le == text_le(a@, b@),
{
    let n: usize = a.len();
    let m: usize = b.len();
    let mut i: usize = 0;
    assert(a@.skip(0) =~= a@ && b@.skip(0) =~= b@);
    while i < n && i < m && a[i] == b[i]
        invariant
            n == a@.len(),
            m == b@.len(),
            i <= n,
            i <= m,
            text_le(a@, b@) == text_le(a@.skip(i as int), b@.skip(i as int)),
        decreases n - i,
    {
        assert(a@.skip(i as int).skip(1) =~= a@.skip(i + 1));
        assert(b@.skip(i as int).skip(1) =~= b@.skip(i + 1));
        i = i + 1;
    }
    if i >= n {
        true
    } else if i >= m {
        false
    } else {
        a[i] < b[i]
    }
}

/// Files in the order of their names, whatever the letter case.
pub open spec fn by_name() -> spec_fn(AudioFile, AudioFile) -> bool {
    |a: AudioFile, b: AudioFile| text_le(lowercase(a.name@), lowercase(b.name@))
}

proof fn lemma_by_name()
    ensures
        order::total_preorder(by_name()),
{
    assert forall|a: AudioFile, b: AudioFile| #[trigger] by_name()(a, b) || by_name()(b, a) by {
        lemma_text_le_total(lowercase(a.name@), lowercase(b.name@));
    }
    assert forall|a: AudioFile, b: AudioFile, c: AudioFile| #[trigger]
        by_name()(a, b) && #[trigger] by_name()(b, c) implies by_name()(a, c) by {
        lemma_text_le_transitive(lowercase(a.name@), lowercase(b.name@), lowercase(c.name@));
    }
}

fn comes_first(a: &AudioFile, b: &AudioFile) -> (first: bool)
    ensures
        first == by_name()(*a, *b),
        lowered_by_letter(a.name@),
        lowered_by_letter(b.name@),
{
    let left = to_lower(a.name.as_str());
    let right = to_lower(b.name.as_str());
    let left_chars = text::char_vec(left.as_str());
    let right_chars = text::char_vec(right.as_str());
    is_text_le(left_chars.as_slice(), right_chars.as_slice())
}

fn is_listed(entry: &FileEntry) -> (yes: bool)
    ensures
        yes == listed(*entry),
{
    match &entry.name {
        Some(name) => {
            let chars = text::char_vec(name.as_str());
            entry.is_file && !(chars.len() > 0 && chars[0] == '.') && is_audio_name(name.as_str())
        },
        None => false,
    }
}

/// Where there is an order, names in ASCII are put in lower case letter by letter for it.
pub open spec fn ordered_by_letter(files: Seq<AudioFile>) -> bool {
    files.len() >= 2 ==> forall|i: int|
        0 <= i < files.len() ==> lowered_by_letter((#[trigger] files[i]).name@)
}

/// Lists the audio files of a directory that are not hidden, in the order of their names.
pub fn list_audio(entries: &Vec<FileEntry>) -> (files: Vec<AudioFile>)
    ensures
        order::stable_sort_of(audio_files(entries@), files@, by_name()),
        ordered_by_letter(files@),
{
    let ghost pred = |e: FileEntry| listed(e);
    let ghost made = |e: FileEntry| AudioFile { name: e.name->0, size: e.size };
    let n: usize = entries.len();
    let mut found: Vec<AudioFile> = Vec::new();
    let mut i: usize = 0;
    proof {
        assert(entries@.take(0) =~= Seq::<FileEntry>::empty());
        order::lemma_filter_none(entries@.take(0), pred);
        assert(found@ =~= entries@.take(0).filter(pred).map_values(made));
    }
    while i < n
        invariant
            n == entries@.len(),
            i <= n,
            pred == (|e: FileEntry| listed(e)),
            made == (|e: FileEntry| AudioFile { name: e.name->0, size: e.size }),
            found@ == entries@.take(i as int).filter(pred).map_values(made),
        decreases n - i,
    {
        let entry: &FileEntry = &entries[i];
        proof {
            let before = entries@.take(i as int);
            assert(entries@.take(i as int + 1) =~= before.push(*entry));
            before.lemma_filter_push(*entry, pred);
            if pred(*entry) {
                assert(before.filter(pred).push(*entry).map_values(made) =~= before.filter(
                    pred,
                ).map_values(made).push(made(*entry)));
            }
        }
        if is_listed(entry) {
            if let Some(name) = &entry.name {
                found.push(AudioFile { name: name.clone(), size: entry.size });
            }
        }
        i = i + 1;
    }
    assert(entries@.take(n as int) =~= entries@);
    proof {
        lemma_by_name();
    }
    let le = |a: &AudioFile, b: &AudioFile| -> (r: bool)
        ensures
            r == by_name()(*a, *b),
            lowered_by_letter(a.name@),
            lowered_by_letter(b.name@),
        { comes_first(a, b) };
    let files = order::stable_sort(found, le, Ghost(by_name()));
    proof {
        found@.to_multiset_ensures();
        files@.to_multiset_ensures();
        assert forall|i: int| found@.len() >= 2 && 0 <= i < files@.len() implies lowered_by_letter(
            (#[trigger] files@[i]).name@,
        ) by {
            assert(files@.contains(files@[i]));
            assert(found@.to_multiset().contains(files@[i]));
            let k = choose|k: int| 0 <= k < found@.len() && found@[k] == files@[i];
            assert(order::was_compared(le, found@[k]));
        }
    }
    files
}

// ---------------------------------------------------------------------------------------------
// Asking for a file
// ---------------------------------------------------------------------------------------------

/// Why a file is not played.
#[derive(Debug)]
pub enum PlayError {
    /// The body is no JSON; why.
    NoJson(String),
    /// The body names no file.
    NoFileField,
    /// The name cannot be that of a file in the directory.
    InvalidName,
    /// The directory has no audio file of this name.
    NoSuchFile(String),
}

/// Why a file is not played.
#[verifier::ext_equal]
pub enum PlayErrorModel {
    NoJson(Seq<char>),
    NoFileField,
    InvalidName,
    NoSuchFile(Seq<char>),
}

impl PlayErrorModel {
    /// The error in words.
    pub open spec fn text(self) -> Seq<char> {
        match self {
            PlayErrorModel::NoJson(complaint) => "invalid JSON body: "@ + complaint,
            PlayErrorModel::NoFileField => "missing \"file\" field"@,
            PlayErrorModel::InvalidName => "invalid file name"@,
            PlayErrorModel::NoSuchFile(name) => "no such audio file: "@ + name,
        }
    }
}

impl View for PlayError {
    type V = PlayErrorModel;

    open spec fn view(&self) -> PlayErrorModel {
        match self {
            PlayError::NoJson(complaint) => PlayErrorModel::NoJson(complaint@),
            PlayError::NoFileField => PlayErrorModel::NoFileField,
            PlayError::InvalidName => PlayErrorModel::InvalidName,
            PlayError::NoSuchFile(name) => PlayErrorModel::NoSuchFile(name@),
        }
    }
}

impl PlayError {
    /// Says the error in words.
    pub fn message(&self) -> (words: String)
        ensures
            words@ == self@.text(),
    {
        match self {
            PlayError::NoJson(complaint) => {
                let mut words = String::from_str("invalid JSON body: ");
                words.append(complaint.as_str());
                words
            },
            PlayError::NoFileField => String::from_str("missing \"file\" field"),
            PlayError::InvalidName => String::from_str("invalid file name"),
            PlayError::NoSuchFile(name) => {
                let mut words = String::from_str("no such audio file: ");
                words.append(name.as_str());
                words
            },
        }
    }
}

/// What becomes of a name that is asked for, if `found` says whether the directory has a file of
/// that name: anything that is not a plain audio file directly in the directory is rejected.
pub open spec fn resolved(name: Seq<char>, found: bool) -> Result<(), PlayErrorModel> {
    if !plain_name(name) {
        Err(PlayErrorModel::InvalidName)
    } else if !audio_name(name) || !found {
        Err(PlayErrorModel::NoSuchFile(name))
    } else {
        Ok(())
    }
}

/// What a request came to, by what its error says.
pub open spec fn outcome<T>(result: Result<T, PlayError>) -> Result<T, PlayErrorModel> {
    match result {
        Ok(value) => Ok(value),
        Err(error) => Err(error@),
    }
}

/// `came` is what becomes of a name that is asked for, as `is_file` tells whether the directory
/// has a file of that name. It is asked about plain audio names only.
pub open spec fn checked<F: Fn(&str) -> bool>(
    is_file: F,
    name: Seq<char>,
    came: Result<(), PlayErrorModel>,
) -> bool {
    if plain_name(name) && audio_name(name) {
        exists|asked: &str, found: bool|
            {
                &&& asked@ == name
                &&& #[trigger] call_ensures(is_file, (asked,), found)
                &&& came == resolved(name, found)
            }
    } else {
        came == resolved(name, false)
    }
}

/// Rejects anything that is not a plain audio file directly in the directory. `is_file` tells
/// whether the directory has a file of a name.
pub fn resolve_requested<F: Fn(&str) -> bool>(name: &str, is_file: F) -> (result: Result<
    (),
    PlayError,
>)
    requires
        plain_name(name@) ==> call_requires(is_file, (name,)),
    ensures
        checked(is_file, name@, outcome(result)),
{
    if !is_plain_name(name) {
        return Err(PlayError::InvalidName);
    }
    if !is_audio_name(name) {
        return Err(PlayError::NoSuchFile(name.to_owned()));
    }
    let found = is_file(name);
    if found {
        Ok(())
    } else {
        Err(PlayError::NoSuchFile(name.to_owned()))
    }
}

/// The name of the file that a request asks for.
pub open spec fn file_field(request: json::Json) -> Option<Seq<char>> {
    match request {
        json::Json::Object(members) => if members.contains_key("file"@) {
            match members["file"@] {
                json::Json::Text(name) => Some(name),
                _ => None,
            }
        } else {
            None
        },
        _ => None,
    }
}

/// The name of the file that a request asks for.
pub fn requested_file(request: &serde_json::Value) -> (name: Option<String>)
    ensures
        match name {
            Some(name) => file_field(json::json_of(*request)) == Some(name@),
            None => file_field(json::json_of(*request)) is None,
        },
{
    match json::member(request, "file") {
        Some(value) => match json::as_text(value) {
            Some(name) => Some(name.to_owned()),
            None => None,
        },
        None => None,
    }
}

/// What the body of a request asks for: the name of a file, unless it cannot be read.
pub open spec fn asked(read: Result<json::Json, Seq<char>>) -> Result<Seq<char>, PlayErrorModel> {
    match read {
        Err(complaint) => Err(PlayErrorModel::NoJson(complaint)),
        Ok(request) => match file_field(request) {
            Some(name) => Ok(name),
            None => Err(PlayErrorModel::NoFileField),
        },
    }
}

/// Reads which file the body of a request asks for.
pub fn play_request(body: &[u8]) -> (name: Result<String, PlayError>)
    ensures
        match name {
            Ok(name) => asked(json::json_read(body@)) == Ok::<Seq<char>, PlayErrorModel>(name@),
            Err(error) => asked(json::json_read(body@)) == Err::<Seq<char>, PlayErrorModel>(error@),
        },
{
    match json::read_json(body) {
        Err(error) => Err(PlayError::NoJson(json::complaint(&error))),
        Ok(request) => match requested_file(&request) {
            Some(name) => Ok(name),
            None => Err(PlayError::NoFileField),
        },
    }
}

/// Of the names that are plain, those that can be played are those that are listed.
pub proof fn what_is_listed_can_be_played(entry: FileEntry)
    requires
        entry.name is Some,
        plain_name(entry.name->0@),
    ensures
        resolved(entry.name->0@, entry.is_file) is Ok <==> listed(entry),
{
}

/// What is played lies directly in the directory, is not hidden, and is an audio file.
pub proof fn only_plain_audio_files_are_played(name: Seq<char>, found: bool)
    requires
        resolved(name, found) is Ok,
    ensures
        found,
        audio_name(name),
        !hidden(name),
        !has_char(name, '/'),
        !has_char(name, '\\'),
        name != ".."@,
{
    reveal_strlit("..");
}

// ---------------------------------------------------------------------------------------------
// Routes
// ---------------------------------------------------------------------------------------------

/// What a request is for.
#[derive(Clone, Copy, Debug, PartialEq, Eq, Structural)]
pub enum Route {
    Page,
    Files,
    Status,
    Play,
    Stop,
    /// Nothing; the request is answered with this status.
    Refused { status: u16 },
}

/// What a request is for.
pub open spec fn route_of(method: Seq<char>, path: Seq<char>) -> Route {
    if method == "GET"@ && path == "/"@ {
        Route::Page
    } else if method == "GET"@ && path == "/api/files"@ {
        Route::Files
    } else if method == "GET"@ && path == "/api/status"@ {
        Route::Status
    } else if method == "POST"@ && path == "/api/play"@ {
        Route::Play
    } else if method == "POST"@ && path == "/api/stop"@ {
        Route::Stop
    } else if path == "/"@ || path == "/api/status"@ {
        Route::Refused { status: 405 }
    } else {
        Route::Refused { status: 404 }
    }
}

/// Finds what a request is for.
pub fn route(method: &str, path: &str) -> (found: Route)
    ensures
        found == route_of(method@, path@),
{
    let get = text::same_text(method, "GET");
    let post = text::same_text(method, "POST");
    let page = text::same_text(path, "/");
    let status = text::same_text(path, "/api/status");
    if get && page {
        Route::Page
    } else if get && text::same_text(path, "/api/files") {
        Route::Files
    } else if get && status {
        Route::Status
    } else if post && text::same_text(path, "/api/play") {
        Route::Play
    } else if post && text::same_text(path, "/api/stop") {
        Route::Stop
    } else if page || status {
        Route::Refused { status: 405 }
    } else {
        Route::Refused { status: 404 }
    }
}

// ---------------------------------------------------------------------------------------------
// Answers
// ---------------------------------------------------------------------------------------------

/// An answer.
#[derive(Debug)]
pub struct Response {
    pub status: u16,
    pub content_type: &'static str,
    pub body: String,
}

impl Response {
    /// The answer is JSON.
    pub open spec fn is_json(self, status: u16, value: json::Json) -> bool {
        &&& self.status == status
        &&& self.content_type@ == "application/json"@
        &&& self.body@ == json::json_text(value)
    }

    /// What is sent before the body.
    pub fn head(&self) -> (head: String)
        ensures
            head@ == http::response_head_text(
                self.status,
                self.content_type@,
                encode_utf8(self.body@).len() as usize,
            ),
    {
        http::response_head(self.status, self.content_type, self.body.as_str().as_bytes().len())
    }
}

fn json_response(status: u16, value: &serde_json::Value) -> (response: Response)
    ensures
        response.is_json(status, json::json_of(*value)),
{
    Response { status, content_type: "application/json", body: json::write_json(value) }
}

/// The page itself.
pub fn page_response(html: &str) -> (response: Response)
    ensures
        response.status == 200,
        response.content_type@ == "text/html; charset=utf-8"@,
        response.body@ == html@,
{
    Response { status: 200, content_type: "text/html; charset=utf-8", body: html.to_owned() }
}

/// An error, as JSON.
pub open spec fn error_json(words: Seq<char>) -> json::Json {
    json::Json::Object(Map::empty().insert("error"@, json::Json::Text(words)))
}

/// Answers with an error.
pub fn error_response(status: u16, words: &str) -> (response: Response)
    ensures
        response.is_json(status, error_json(words@)),
{
    let mut members = json::no_members();
    json::set_member(&mut members, "error", json::string(words));
    json_response(status, &json::object(members))
}

/// The error of a request that is for nothing, in words.
pub open spec fn no_route_text(method: Seq<char>, path: Seq<char>) -> Seq<char> {
    "no route for "@ + method + " "@ + path
}

/// Answers a request that is for nothing.
pub fn refusal_response(status: u16, method: &str, path: &str) -> (response: Response)
    ensures
        response.is_json(status, error_json(no_route_text(method@, path@))),
{
    let mut words = String::from_str("no route for ");
    words.append(method);
    words.append(" ");
    words.append(path);
    error_response(status, words.as_str())
}

/// Answers a request for a file that is not played.
pub fn not_played_response(error: &PlayError) -> (response: Response)
    ensures
        response.is_json(400, error_json(error@.text())),
{
    let words = error.message();
    error_response(400, words.as_str())
}

/// A file, as JSON.
pub open spec fn file_json(file: AudioFile) -> json::Json {
    json::Json::Object(
        Map::empty().insert("name"@, json::Json::Text(file.name@)).insert(
            "size"@,
            json::Json::Number(text::decimal(file.size as nat)),
        ),
    )
}

/// The files of a directory, as JSON.
pub open spec fn files_json(dir: Seq<char>, files: Seq<AudioFile>) -> json::Json {
    json::Json::Object(
        Map::empty().insert("dir"@, json::Json::Text(dir)).insert(
            "files"@,
            json::Json::List(files.map_values(|f: AudioFile| file_json(f))),
        ),
    )
}

/// Answers with the files of a directory.
pub fn files_response(dir: &str, files: &Vec<AudioFile>) -> (response: Response)
    ensures
        response.is_json(200, files_json(dir@, files@)),
{
    let ghost held = |v: serde_json::Value| json::json_of(v);
    let n: usize = files.len();
    let mut items: Vec<serde_json::Value> = Vec::new();
    let mut i: usize = 0;
    while i < n
        invariant
            n == files@.len(),
            i <= n,
            items@.len() == i,
            forall|k: int| 0 <= k < i ==> json::json_of(#[trigger] items@[k]) == file_json(files@[k]),
        decreases n - i,
    {
        let mut members = json::no_members();
        json::set_member(&mut members, "name", json::string(files[i].name.as_str()));
        json::set_member(&mut members, "size", json::number(files[i].size));
        items.push(json::object(members));
        i = i + 1;
    }
    assert(items@.map_values(held) =~= files@.map_values(|f: AudioFile| file_json(f)));
    let mut members = json::no_members();
    json::set_member(&mut members, "dir", json::string(dir));
    json::set_member(&mut members, "files", json::list(items));
    json_response(200, &json::object(members))
}

/// A playback that has just started, as JSON.
pub open spec fn played_json(name: Seq<char>, duration_ms: u64) -> json::Json {
    json::Json::Object(
        Map::empty().insert("ok"@, json::Json::Bool(true)).insert(
            "file"@,
            json::Json::Text(name),
        ).insert("duration_ms"@, json::Json::Number(text::decimal(duration_ms as nat))),
    )
}

/// Answers that the file asked for is played.
pub fn played_response(name: &str, duration_ms: u64) -> (response: Response)
    ensures
        response.is_json(200, played_json(name@, duration_ms)),
{
    let mut members = json::no_members();
    json::set_member(&mut members, "ok", json::flag(true));
    json::set_member(&mut members, "file", json::string(name));
    json::set_member(&mut members, "duration_ms", json::number(duration_ms));
    json_response(200, &json::object(members))
}

/// That all is well, as JSON.
pub open spec fn ok_json() -> json::Json {
    json::Json::Object(Map::empty().insert("ok"@, json::Json::Bool(true)))
}

/// Answers that nothing plays any more.
pub fn stopped_response() -> (response: Response)
    ensures
        response.is_json(200, ok_json()),
{
    let mut members = json::no_members();
    json::set_member(&mut members, "ok", json::flag(true));
    json_response(200, &json::object(members))
}

// ---------------------------------------------------------------------------------------------
// What plays
// ---------------------------------------------------------------------------------------------

/// How things stand, as JSON.
pub open spec fn status_json(
    playing: bool,
    file: json::Json,
    elapsed_ms: u64,
    duration_ms: u64,
    underruns: u64,
) -> json::Json {
    json::Json::Object(
        Map::empty().insert("playing"@, json::Json::Bool(playing)).insert("file"@, file).insert(
            "elapsed_ms"@,
            json::Json::Number(text::decimal(elapsed_ms as nat)),
        ).insert("duration_ms"@, json::Json::Number(text::decimal(duration_ms as nat))).insert(
            "underruns"@,
            json::Json::Number(text::decimal(underruns as nat)),
        ),
    )
}

/// How things stand with what plays, if anything does.
pub open spec fn standing(active: Option<PlaybackHandle>) -> json::Json {
    match active {
        Some(handle) => status_json(
            !handle.status.ended(),
            json::Json::Text(handle.file@),
            handle.status.played_ms,
            handle.duration_ms,
            handle.status.underruns,
        ),
        None => status_json(false, json::Json::Null, 0, 0, 0),
    }
}

/// What the daemon plays: one playback at most.
#[derive(Debug)]
pub struct ServerState {
    pub active: Option<PlaybackHandle>,
}

impl ServerState {
    /// Nothing plays.
    pub fn new() -> (state: Self)
        ensures
            state.active is None,
    {
        ServerState { active: None }
    }

    /// Lets go of what plays, asked to stop, so that it can be waited for.
    pub fn stop_active(&mut self) -> (stopped: Option<PlaybackHandle>)
        ensures
            final(self).active is None,
            match old(self).active {
                None => stopped is None,
                Some(handle) => {
                    &&& stopped is Some
                    &&& stopped->0.file == handle.file
                    &&& stopped->0.duration_ms == handle.duration_ms
                    &&& stopped->0.status.canceling
                    &&& stopped->0.status.done == handle.status.done
                    &&& stopped->0.status.played_ms == handle.status.played_ms
                    &&& stopped->0.status.underruns == handle.status.underruns
                },
            },
    {
        match self.active.take() {
            None => None,
            Some(handle) => {
                let mut handle = handle;
                handle.cancel_now();
                Some(handle)
            },
        }
    }

    /// A playback has started, in place of whatever played before.
    pub fn started(&mut self, handle: PlaybackHandle)
        ensures
            final(self).active == Some(handle),
    {
        self.active = Some(handle);
    }

    /// Answers how things stand. A playback whose supervisor has finished is let go of first.
    pub fn status_response(&mut self, supervisor_finished: bool) -> (response: Response)
        ensures
            final(self).active == if supervisor_finished {
                None
            } else {
                old(self).active
            },
            response.is_json(200, standing(final(self).active)),
    {
        if supervisor_finished {
            self.active = None;
        }
        let mut members = json::no_members();
        match &self.active {
            Some(handle) => {
                json::set_member(&mut members, "playing", json::flag(handle.playing()));
                json::set_member(&mut members, "file", json::string(handle.file.as_str()));
                json::set_member(&mut members, "elapsed_ms", json::number(handle.elapsed_ms()));
                json::set_member(&mut members, "duration_ms", json::number(handle.duration_ms));
                json::set_member(&mut members, "underruns", json::number(handle.underruns()));
            },
            None => {
                json::set_member(&mut members, "playing", json::flag(false));
                json::set_member(&mut members, "file", json::null());
                json::set_member(&mut members, "elapsed_ms", json::number(0));
                json::set_member(&mut members, "duration_ms", json::number(0));
                json::set_member(&mut members, "underruns", json::number(0));
            },
        }
        json_response(200, &json::object(members))
    }
}

// ---------------------------------------------------------------------------------------------
// Requests
// ---------------------------------------------------------------------------------------------

/// What is done about a request.
#[derive(Debug)]
pub enum Action {
    /// Send this answer.
    Answer(Response),
    /// Read the directory, and answer with [`listing_response`].
    ListFiles,
    /// Stop what plays, play the file of this name, and answer with [`play_response`].
    Play(String),
    /// Stop what plays, and answer with [`stopped_response`].
    Stop,
}

impl Action {
    /// A JSON answer is sent.
    pub open spec fn answers(self, status: u16, value: json::Json) -> bool {
        match self {
            Action::Answer(response) => response.is_json(status, value),
            _ => false,
        }
    }
}

/// `action` is what is done about the file of a name, or about an error.
pub open spec fn acted(came: Result<Seq<char>, PlayErrorModel>, action: Action) -> bool {
    match came {
        Ok(name) => action is Play && action->Play_0@ == name,
        Err(error) => action.answers(400, error_json(error.text())),
    }
}

/// `came` is what becomes of what a request asks for, as `is_file` tells whether the directory
/// has a file of a name.
pub open spec fn granted<F: Fn(&str) -> bool>(
    is_file: F,
    asked: Result<Seq<char>, PlayErrorModel>,
    came: Result<Seq<char>, PlayErrorModel>,
) -> bool {
    match (asked, came) {
        (Err(error), _) => came == asked,
        (Ok(name), Ok(granted)) => granted == name && checked(is_file, name, Ok(())),
        (Ok(name), Err(error)) => checked(is_file, name, Err(error)),
    }
}

/// Decides what to do about a request to play a file: the body names it, and `is_file` tells
/// whether the directory has a file of a name.
pub fn handle_play<F: Fn(&str) -> bool>(body: &[u8], is_file: F) -> (action: Action)
    requires
        forall|name: &str| #[trigger] call_requires(is_file, (name,)),
    ensures
        exists|came: Result<Seq<char>, PlayErrorModel>|
            granted(is_file, asked(json::json_read(body@)), came) && #[trigger] acted(came, action),
{
    match play_request(body) {
        Err(error) => {
            let action = Action::Answer(not_played_response(&error));
            assert(acted(Err(error@), action));
            action
        },
        Ok(name) => match resolve_requested(name.as_str(), is_file) {
            Ok(_) => {
                let ghost wanted = name@;
                let action = Action::Play(name);
                assert(acted(Ok(wanted), action));
                action
            },
            Err(error) => {
                let action = Action::Answer(not_played_response(&error));
                assert(acted(Err(error@), action));
                action
            },
        },
    }
}

impl ServerState {
    /// Decides what to do about a request. `html` is the page, and `is_file` tells whether the
    /// directory has a file of a name. What plays is not touched; it is only let go of when its
    /// supervisor has finished and somebody asks how things stand.
    pub fn handle<F: Fn(&str) -> bool>(
        &mut self,
        request: &http::Request,
        supervisor_finished: bool,
        html: &str,
        is_file: F,
    ) -> (action: Action)
        requires
            forall|name: &str| #[trigger] call_requires(is_file, (name,)),
        ensures
            final(self).active == if supervisor_finished && route_of(
                request.method@,
                request.path@,
            ) == Route::Status {
                None
            } else {
                old(self).active
            },
            match route_of(request.method@, request.path@) {
                Route::Page => match action {
                    Action::Answer(response) => {
                        &&& response.status == 200
                        &&& response.content_type@ == "text/html; charset=utf-8"@
                        &&& response.body@ == html@
                    },
                    _ => false,
                },
                Route::Files => action is ListFiles,
                Route::Status => action.answers(200, standing(final(self).active)),
                Route::Play => exists|came: Result<Seq<char>, PlayErrorModel>|
                    granted(is_file, asked(json::json_read(request.body@)), came)
                        && #[trigger] acted(came, action),
                Route::Stop => action is Stop,
                Route::Refused { status } => action.answers(
                    status,
                    error_json(no_route_text(request.method@, request.path@)),
                ),
            },
    {
        let method = request.method.as_str();
        let path = request.path.as_str();
        match route(method, path) {
            Route::Page => Action::Answer(page_response(html)),
            Route::Files => Action::ListFiles,
            Route::Status => Action::Answer(self.status_response(supervisor_finished)),
            Route::Play => handle_play(request.body.as_slice(), is_file),
            Route::Stop => Action::Stop,
            Route::Refused { status } => Action::Answer(refusal_response(status, method, path)),
        }
    }
}

/// Answers with the audio files of a directory, or says why it cannot be read.
pub fn listing_response(dir: &str, read: Result<Vec<FileEntry>, String>) -> (response: Response)
    ensures
        match read {
            Ok(entries) => exists|files: Seq<AudioFile>|
                {
                    &&& #[trigger] order::stable_sort_of(audio_files(entries@), files, by_name())
                    &&& ordered_by_letter(files)
                    &&& response.is_json(200, files_json(dir@, files))
                },
            Err(words) => response.is_json(500, error_json(words@)),
        },
{
    match read {
        Ok(entries) => {
            let files = list_audio(&entries);
            files_response(dir, &files)
        },
        Err(words) => error_response(500, words.as_str()),
    }
}

/// Answers that the file asked for is played, and how long it is, or says why it is not.
pub fn play_response(name: &str, started: Result<u64, String>) -> (response: Response)
    ensures
        match started {
            Ok(duration_ms) => response.is_json(200, played_json(name@, duration_ms)),
            Err(words) => response.is_json(400, error_json(words@)),
        },
{
    match started {
        Ok(duration_ms) => played_response(name, duration_ms),
        Err(words) => error_response(400, words.as_str()),
    }
}

// ---------------------------------------------------------------------------------------------
// What the daemon promises
// ---------------------------------------------------------------------------------------------

/// Texts are in dictionary order: where two first differ, the one with the smaller character
/// comes first, however long the two are.
pub proof fn the_first_difference_decides(a: Seq<char>, b: Seq<char>, i: int)
    requires
        0 <= i < a.len(),
        i < b.len(),
        forall|k: int| 0 <= k < i ==> #[trigger] a[k] == b[k],
        a[i] != b[i],
    ensures
        text_le(a, b) <==> a[i] < b[i],
    decreases i,
{
    if i > 0 {
        assert(a[0] == b[0]);
        assert forall|k: int| 0 <= k < i - 1 implies #[trigger] a.skip(1)[k] == b.skip(1)[k] by {
            assert(a[k + 1] == b[k + 1]);
        }
        the_first_difference_decides(a.skip(1), b.skip(1), i - 1);
    }
}

/// A text comes before any longer one that starts with it, and not after.
pub proof fn a_beginning_comes_first(a: Seq<char>, rest: Seq<char>)
    ensures
        text_le(a, a + rest),
        text_le(a + rest, a) <==> rest.len() == 0,
    decreases a.len(),
{
    if a.len() > 0 {
        a_beginning_comes_first(a.skip(1), rest);
        assert((a + rest).skip(1) =~= a.skip(1) + rest);
    } else {
        assert(a + rest =~= rest);
    }
}

/// Files are listed in the dictionary order of their names in lower case: where the names of two
/// files first differ, the earlier file has the smaller character, and no file comes after a
/// longer one whose name starts with its own.
pub proof fn files_are_listed_in_dictionary_order(
    entries: Seq<FileEntry>,
    files: Seq<AudioFile>,
    p: int,
    q: int,
)
    requires
        order::stable_sort_of(audio_files(entries), files, by_name()),
        0 <= p < q < files.len(),
    ensures
        ({
            let a = lowercase(files[p].name@);
            let b = lowercase(files[q].name@);
            &&& forall|i: int|
                {
                    &&& 0 <= i < a.len()
                    &&& i < b.len()
                    &&& #[trigger] a[i] != b[i]
                    &&& forall|k: int| 0 <= k < i ==> #[trigger] a[k] == b[k]
                } ==> a[i] < b[i]
            &&& a.len() > b.len() ==> a.take(b.len() as int) != b
        }),
{
    let a = lowercase(files[p].name@);
    let b = lowercase(files[q].name@);
    assert(by_name()(files[p], files[q]));
    assert forall|i: int|
        {
            &&& 0 <= i < a.len()
            &&& i < b.len()
            &&& #[trigger] a[i] != b[i]
            &&& forall|k: int| 0 <= k < i ==> #[trigger] a[k] == b[k]
        } implies a[i] < b[i] by {
        the_first_difference_decides(a, b, i);
    }
    if a.len() > b.len() && a.take(b.len() as int) == b {
        a_beginning_comes_first(b, a.skip(b.len() as int));
        assert(b + a.skip(b.len() as int) =~= a);
    }
}

/// A file is listed exactly if the directory holds it as a file, its name is a text that does
/// not start with a dot, and that name is one of an audio file. It keeps its name and size, and
/// none is listed more often than it is there.
pub proof fn exactly_the_audio_files_are_listed(
    entries: Seq<FileEntry>,
    files: Seq<AudioFile>,
    file: AudioFile,
)
    requires
        order::stable_sort_of(audio_files(entries), files, by_name()),
    ensures
        files.contains(file) <==> exists|e: int|
            {
                &&& 0 <= e < entries.len()
                &&& (#[trigger] entries[e]).name == Some(file.name)
                &&& entries[e].size == file.size
                &&& entries[e].is_file
                &&& !(file.name@.len() > 0 && file.name@[0] == '.')
                &&& audio_name(file.name@)
            },
        files.len() == entries.filter(
            |e: FileEntry|
                e.is_file && e.name is Some && !(e.name->0@.len() > 0 && e.name->0@[0] == '.')
                    && audio_name(e.name->0@),
        ).len(),
{
    let pred = |e: FileEntry| listed(e);
    let literal = |e: FileEntry|
        e.is_file && e.name is Some && !(e.name->0@.len() > 0 && e.name->0@[0] == '.')
            && audio_name(e.name->0@);
    let made = |e: FileEntry| AudioFile { name: e.name->0, size: e.size };
    assert(pred =~= literal);
    let kept = entries.filter(pred);
    let found = audio_files(entries);
    assert(found == kept.map_values(made));
    found.to_multiset_ensures();
    files.to_multiset_ensures();
    assert(files.contains(file) <==> found.contains(file)) by {
        assert(files.to_multiset().count(file) == found.to_multiset().count(file));
    }
    if found.contains(file) {
        let k = choose|k: int| 0 <= k < found.len() && found[k] == file;
        entries.lemma_filter_pred(pred, k);
        assert(kept.contains(kept[k]));
        entries.lemma_filter_contains_rev(pred, kept[k]);
        let e = choose|e: int| 0 <= e < entries.len() && entries[e] == kept[k];
        assert(entries[e].name == Some(file.name));
    }
    if exists|e: int|
        {
            &&& 0 <= e < entries.len()
            &&& (#[trigger] entries[e]).name == Some(file.name)
            &&& entries[e].size == file.size
            &&& entries[e].is_file
            &&& !(file.name@.len() > 0 && file.name@[0] == '.')
            &&& audio_name(file.name@)
        } {
        let e = choose|e: int|
            {
                &&& 0 <= e < entries.len()
                &&& (#[trigger] entries[e]).name == Some(file.name)
                &&& entries[e].size == file.size
                &&& entries[e].is_file
                &&& !(file.name@.len() > 0 && file.name@[0] == '.')
                &&& audio_name(file.name@)
            };
        entries.lemma_filter_contains(pred, e);
        let k = choose|k: int| 0 <= k < kept.len() && kept[k] == entries[e];
        assert(found[k] == file);
    }
}

/// `ext` is `word`, with any of its letters in upper case.
pub open spec fn spells(ext: Seq<char>, word: Seq<char>) -> bool {
    &&& ext.len() == word.len()
    &&& forall|i: int|
        0 <= i < word.len() ==> #[trigger] ext[i] == word[i] || ('A' <= ext[i] <= 'Z'
            && ext[i] as int + 32 == word[i] as int)
}

proof fn lemma_spells(ext: Seq<char>, word: Seq<char>)
    requires
        forall|i: int| 0 <= i < word.len() ==> !('A' <= #[trigger] word[i] <= 'Z'),
    ensures
        text::ascii_lower(ext) == word <==> spells(ext, word),
{
    let lower = text::ascii_lower(ext);
    if spells(ext, word) {
        assert forall|i: int| 0 <= i < word.len() implies #[trigger] lower[i] == word[i] by {
            assert(ext[i] == word[i] || ('A' <= ext[i] <= 'Z' && ext[i] as int + 32
                == word[i] as int));
        }
        assert(lower =~= word);
    }
    if lower == word {
        assert forall|i: int| 0 <= i < word.len() implies #[trigger] ext[i] == word[i] || ('A'
            <= ext[i] <= 'Z' && ext[i] as int + 32 == word[i] as int) by {
            assert(lower[i] == word[i]);
        }
    }
}

proof fn lemma_after_last_dot(s: Seq<char>, dot: int, n: int)
    requires
        0 <= dot < n <= s.len(),
        s[dot] == '.',
        forall|k: int| dot < k < n ==> #[trigger] s[k] != '.',
    ensures
        after_last_dot(s, n) == dot + 1,
    decreases n,
{
    if n - 1 > dot {
        assert(s[n - 1] != '.');
        lemma_after_last_dot(s, dot, n - 1);
    }
}

proof fn lemma_no_dot(s: Seq<char>, n: int)
    requires
        0 <= n <= s.len(),
        forall|k: int| 0 <= k < n ==> #[trigger] s[k] != '.',
    ensures
        after_last_dot(s, n) == 0,
    decreases n,
{
    if n > 0 {
        assert(s[n - 1] != '.');
        lemma_no_dot(s, n - 1);
    }
}

/// An audio file is known by what follows the last dot of its name: one of six words, in any
/// letter case. What comes before that dot does not matter, and a name without a dot is none.
pub proof fn audio_files_are_known_by_their_extension(stem: Seq<char>, ext: Seq<char>)
    requires
        forall|k: int| 0 <= k < ext.len() ==> #[trigger] ext[k] != '.',
    ensures
        audio_name(stem + seq!['.'] + ext) <==> spells(ext, seq!['m', 'p', '3']) || spells(
            ext,
            seq!['f', 'l', 'a', 'c'],
        ) || spells(ext, seq!['w', 'a', 'v']) || spells(ext, seq!['o', 'g', 'g']) || spells(
            ext,
            seq!['m', '4', 'a'],
        ) || spells(ext, seq!['a', 'a', 'c']),
        !audio_name(ext),
{
    let name = stem + seq!['.'] + ext;
    assert forall|k: int| stem.len() < k < name.len() implies #[trigger] name[k] != '.' by {
        assert(name[k] == ext[k - stem.len() - 1]);
    }
    lemma_after_last_dot(name, stem.len() as int, name.len() as int);
    assert(name.skip(stem.len() as int + 1) =~= ext);
    lemma_no_dot(ext, ext.len() as int);
    reveal_strlit("mp3");
    reveal_strlit("flac");
    reveal_strlit("wav");
    reveal_strlit("ogg");
    reveal_strlit("m4a");
    reveal_strlit("aac");
    assert("mp3"@ =~= seq!['m', 'p', '3']);
    assert("flac"@ =~= seq!['f', 'l', 'a', 'c']);
    assert("wav"@ =~= seq!['w', 'a', 'v']);
    assert("ogg"@ =~= seq!['o', 'g', 'g']);
    assert("m4a"@ =~= seq!['m', '4', 'a']);
    assert("aac"@ =~= seq!['a', 'a', 'c']);
    lemma_spells(ext, seq!['m', 'p', '3']);
    lemma_spells(ext, seq!['f', 'l', 'a', 'c']);
    lemma_spells(ext, seq!['w', 'a', 'v']);
    lemma_spells(ext, seq!['o', 'g', 'g']);
    lemma_spells(ext, seq!['m', '4', 'a']);
    lemma_spells(ext, seq!['a', 'a', 'c']);
}

/// A file is played exactly if it is there, its name is that of an audio file, of 1 to 255 bytes,
/// does not start with a dot, and holds neither a slash, nor a backslash, nor two dots in a row.
/// A name that breaks one of the rules on names is invalid; any other is that of no file.
pub proof fn files_are_played_by_the_rules(name: Seq<char>, found: bool)
    ensures
        ({
            let plain = {
                &&& 1 <= name.len()
                &&& encode_utf8(name).len() <= 255
                &&& name[0] != '.'
                &&& forall|i: int|
                    0 <= i < name.len() ==> #[trigger] name[i] != '/' && name[i] != '\\'
                &&& forall|i: int|
                    0 <= i && i + 1 < name.len() ==> !(#[trigger] name[i] == '.' && name[i + 1]
                        == '.')
            };
            &&& resolved(name, found) is Ok <==> plain && audio_name(name) && found
            &&& !plain <==> resolved(name, found) == Err::<(), PlayErrorModel>(
                PlayErrorModel::InvalidName,
            )
            &&& plain && !(audio_name(name) && found) ==> resolved(name, found) == Err::<
                (),
                PlayErrorModel,
            >(PlayErrorModel::NoSuchFile(name))
        }),
{
    let free = forall|i: int|
        0 <= i < name.len() ==> #[trigger] name[i] != '/' && name[i] != '\\';
    let no_two = forall|i: int|
        0 <= i && i + 1 < name.len() ==> !(#[trigger] name[i] == '.' && name[i + 1] == '.');
    assert(free <==> !has_char(name, '/') && !has_char(name, '\\')) by {
        if !free {
            let i = choose|i: int|
                0 <= i < name.len() && (#[trigger] name[i] == '/' || name[i] == '\\');
            assert(name[i] == '/' || name[i] == '\\');
        }
    }
    assert(no_two <==> !has_two_dots(name)) by {
        if !no_two {
            let i = choose|i: int|
                0 <= i && i + 1 < name.len() && (#[trigger] name[i] == '.' && name[i + 1] == '.');
            assert(name[i] == '.');
        }
    }
}

/// The file asked for is the member `file` of the request, word for word, if it is a text, and
/// nothing else is.
pub proof fn the_file_asked_for_is_the_file_member(
    members: Map<Seq<char>, json::Json>,
    name: Seq<char>,
    request: json::Json,
)
    ensures
        file_field(json::Json::Object(members)) == Some(name) <==> members.contains_key("file"@)
            && members["file"@] == json::Json::Text(name),
        request !is Object ==> file_field(request) is None,
        asked(Ok(json::Json::Object(members))) == Ok::<Seq<char>, PlayErrorModel>(name)
            <==> members.contains_key("file"@) && members["file"@] == json::Json::Text(name),
        asked(Err(name)) == Err::<Seq<char>, PlayErrorModel>(PlayErrorModel::NoJson(name)),
        file_field(request) is None ==> asked(Ok(request)) == Err::<Seq<char>, PlayErrorModel>(
            PlayErrorModel::NoFileField,
        ),
{
}

/// Each route has its one method and path; another method on the page or on the status is
/// answered with 405, and everything else with 404.
pub proof fn every_route_has_its_method_and_path(method: Seq<char>, path: Seq<char>)
    ensures
        route_of(method, path) is Page <==> method == "GET"@ && path == "/"@,
        route_of(method, path) is Files <==> method == "GET"@ && path == "/api/files"@,
        route_of(method, path) is Status <==> method == "GET"@ && path == "/api/status"@,
        route_of(method, path) is Play <==> method == "POST"@ && path == "/api/play"@,
        route_of(method, path) is Stop <==> method == "POST"@ && path == "/api/stop"@,
        route_of(method, path) matches Route::Refused { status } ==> status == if path == "/"@
            || path == "/api/status"@ {
            405u16
        } else {
            404u16
        },
{
    reveal_strlit("GET");
    reveal_strlit("POST");
    reveal_strlit("/");
    reveal_strlit("/api/files");
    reveal_strlit("/api/status");
    reveal_strlit("/api/play");
    reveal_strlit("/api/stop");
    assert("GET"@.len() == 3 && "POST"@.len() == 4);
    assert("/"@.len() == 1 && "/api/files"@.len() == 10 && "/api/status"@.len() == 11);
    assert("/api/play"@.len() == 9 && "/api/stop"@.len() == 9);
    assert("/api/play"@[5] == 'p' && "/api/stop"@[5] == 's');
}

/// A listing holds its directory and, in order, the name and the size of every file.
pub proof fn listings_hold_every_file(dir: Seq<char>, files: Seq<AudioFile>, i: int)
    ensures
        files_json(dir, files) matches json::Json::Object(members) && {
            &&& members.dom() == set!["dir"@, "files"@]
            &&& members["dir"@] == json::Json::Text(dir)
            &&& members["files"@] matches json::Json::List(items) && {
                &&& items.len() == files.len()
                &&& 0 <= i < files.len() ==> (items[i] matches json::Json::Object(file) && {
                    &&& file.dom() == set!["name"@, "size"@]
                    &&& file["name"@] == json::Json::Text(files[i].name@)
                    &&& file["size"@] == json::Json::Number(text::decimal(files[i].size as nat))
                })
            }
        },
{
    reveal_strlit("dir");
    reveal_strlit("files");
    reveal_strlit("name");
    reveal_strlit("size");
    assert("dir"@.len() == 3 && "files"@.len() == 5);
    assert("name"@[0] == 'n' && "size"@[0] == 's');
    assert(files_json(dir, files)->Object_0.dom() =~= set!["dir"@, "files"@]);
    if 0 <= i < files.len() {
        assert(file_json(files[i])->Object_0.dom() =~= set!["name"@, "size"@]);
    }
}

/// The status of what plays says whether it goes on, its file, how much of it was played, how
/// long it is, and its underruns; without a playback all of these are empty.
pub proof fn the_status_tells_how_things_stand(handle: PlaybackHandle)
    ensures
        standing(Some(handle)) matches json::Json::Object(members) && {
            &&& members.dom() == set![
                "playing"@,
                "file"@,
                "elapsed_ms"@,
                "duration_ms"@,
                "underruns"@,
            ]
            &&& members["playing"@] == json::Json::Bool(
                !handle.status.canceling && !handle.status.done,
            )
            &&& members["file"@] == json::Json::Text(handle.file@)
            &&& members["elapsed_ms"@] == json::Json::Number(
                text::decimal(handle.status.played_ms as nat),
            )
            &&& members["duration_ms"@] == json::Json::Number(
                text::decimal(handle.duration_ms as nat),
            )
            &&& members["underruns"@] == json::Json::Number(
                text::decimal(handle.status.underruns as nat),
            )
        },
        standing(None) matches json::Json::Object(members) && {
            &&& members.dom() == set![
                "playing"@,
                "file"@,
                "elapsed_ms"@,
                "duration_ms"@,
                "underruns"@,
            ]
            &&& members["playing"@] == json::Json::Bool(false)
            &&& members["file"@] is Null
            &&& members["elapsed_ms"@] == json::Json::Number(text::decimal(0))
            &&& members["duration_ms"@] == json::Json::Number(text::decimal(0))
            &&& members["underruns"@] == json::Json::Number(text::decimal(0))
        },
{
    reveal_strlit("playing");
    reveal_strlit("file");
    reveal_strlit("elapsed_ms");
    reveal_strlit("duration_ms");
    reveal_strlit("underruns");
    assert("playing"@.len() == 7 && "file"@.len() == 4 && "elapsed_ms"@.len() == 10);
    assert("duration_ms"@.len() == 11 && "underruns"@.len() == 9);
    let names = set!["playing"@, "file"@, "elapsed_ms"@, "duration_ms"@, "underruns"@];
    assert(standing(Some(handle))->Object_0.dom() =~= names);
    assert(standing(None)->Object_0.dom() =~= names);
}

/// A file that is played is told by its name and its length, and an error by its words.
pub proof fn answers_tell_what_came_of_it(name: Seq<char>, duration_ms: u64)
    ensures
        played_json(name, duration_ms) matches json::Json::Object(members) && {
            &&& members.dom() == set!["ok"@, "file"@, "duration_ms"@]
            &&& members["ok"@] == json::Json::Bool(true)
            &&& members["file"@] == json::Json::Text(name)
            &&& members["duration_ms"@] == json::Json::Number(text::decimal(duration_ms as nat))
        },
        error_json(name) matches json::Json::Object(members) && members["error"@]
            == json::Json::Text(name) && members.dom() == set!["error"@],
        ok_json() matches json::Json::Object(members) && members["ok"@] == json::Json::Bool(true)
            && members.dom() == set!["ok"@],
{
    reveal_strlit("ok");
    reveal_strlit("file");
    reveal_strlit("duration_ms");
    assert("ok"@.len() == 2 && "file"@.len() == 4 && "duration_ms"@.len() == 11);
    assert(played_json(name, duration_ms)->Object_0.dom() =~= set![
        "ok"@,
        "file"@,
        "duration_ms"@,
    ]);
    assert(error_json(name)->Object_0.dom() =~= set!["error"@]);
    assert(ok_json()->Object_0.dom() =~= set!["ok"@]);
}

/// Errors name what they are about, after words that say what is wrong.
pub proof fn errors_name_their_cause(words: Seq<char>, path: Seq<char>)
    ensures
        PlayErrorModel::NoJson(words).text() == "invalid JSON body: "@ + words,
        PlayErrorModel::NoSuchFile(words).text() == "no such audio file: "@ + words,
        PlayErrorModel::NoFileField.text() == "missing \"file\" field"@,
        PlayErrorModel::InvalidName.text() == "invalid file name"@,
        no_route_text(words, path) == "no route for "@ + words + " "@ + path,
{
}

/// A file is played exactly if its name is asked for, plain and that of an audio file, and the
/// directory has it; `has` says which names that is so of. Anything else is answered with status
/// 400 and what is wrong.
pub proof fn a_file_is_played_exactly_if_it_may_be<F: Fn(&str) -> bool>(
    is_file: F,
    has: spec_fn(Seq<char>) -> bool,
    asked: Result<Seq<char>, PlayErrorModel>,
    came: Result<Seq<char>, PlayErrorModel>,
    action: Action,
)
    requires
        forall|name: &str, found: bool| #[trigger]
            call_ensures(is_file, (name,), found) ==> found == has(name@),
        granted(is_file, asked, came),
        acted(came, action),
    ensures
        action is Play <==> asked is Ok && plain_name(asked->Ok_0) && audio_name(asked->Ok_0)
            && has(asked->Ok_0),
        action is Play ==> action->Play_0@ == asked->Ok_0,
        action !is Play ==> {
            let error = match asked {
                Err(error) => error,
                Ok(name) => if !plain_name(name) {
                    PlayErrorModel::InvalidName
                } else {
                    PlayErrorModel::NoSuchFile(name)
                },
            };
            &&& action is Answer
            &&& action->Answer_0.status == 400
            &&& action->Answer_0.content_type@ == "application/json"@
            &&& action->Answer_0.body@ == json::json_text(
                json::Json::Object(
                    Map::empty().insert("error"@, json::Json::Text(error.text())),
                ),
            )
        },
{
}

} // verus!
