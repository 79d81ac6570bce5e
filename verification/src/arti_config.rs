//! The configuration of the onion client: what its file says of storage, and
//! the document that the client is given in its place.

use crate::endpoints::texts;
use crate::paths::{path_components, same_path};
use crate::settings::{
    all_tables, contents, field_at, find_field, parse_document, parsed, render_table, rendered,
    set_text, what_stands_elsewhere_stays, what_was_put_is_found, with_text, Field, FieldModel,
};
use crate::tor::TorTransportConfig;
use vstd::prelude::*;
use vstd::string::StringExecFns;

verus! {

/// What a document holds at a path.
#[derive(Debug)]
pub enum Setting {
    Absent,
    Text(String),
    Table,
    Other,
}

/// What a document holds at a path, as a plain value.
pub enum SettingModel {
    Absent,
    Text(Seq<char>),
    Table,
    Other,
}

impl Setting {
    pub open spec fn view(&self) -> SettingModel {
        match self {
            Setting::Absent => SettingModel::Absent,
            Setting::Text(text) => SettingModel::Text(text@),
            Setting::Table => SettingModel::Table,
            Setting::Other => SettingModel::Other,
        }
    }
}

/// A setting that should be a path.
#[derive(Debug)]
pub enum PathSetting {
    Absent,
    NotText,
    /// The path as the client's own rules expand it.
    Expanded(String),
    Unexpandable,
}

/// A setting that should be a path, as a plain value.
pub enum PathModel {
    Absent,
    NotText,
    Expanded(Seq<char>),
    Unexpandable,
}

impl PathSetting {
    pub open spec fn view(&self) -> PathModel {
        match self {
            PathSetting::Absent => PathModel::Absent,
            PathSetting::NotText => PathModel::NotText,
            PathSetting::Expanded(path) => PathModel::Expanded(path@),
            PathSetting::Unexpandable => PathModel::Unexpandable,
        }
    }
}

/// What a configuration file says of storage.
#[derive(Debug)]
pub struct ArtiStorage {
    pub root_is_table: bool,
    pub storage_is_table: bool,
    pub state_dir: PathSetting,
    pub cache_dir: PathSetting,
    pub keystore_is_table: bool,
    pub primary_is_table: bool,
    pub kind: Setting,
}

/// What a configuration file says of storage, as a plain value.
pub struct StorageModel {
    pub root_is_table: bool,
    pub storage_is_table: bool,
    pub state_dir: PathModel,
    pub cache_dir: PathModel,
    pub keystore_is_table: bool,
    pub primary_is_table: bool,
    pub kind: SettingModel,
}

impl ArtiStorage {
    pub open spec fn view(&self) -> StorageModel {
        StorageModel {
            root_is_table: self.root_is_table,
            storage_is_table: self.storage_is_table,
            state_dir: self.state_dir@,
            cache_dir: self.cache_dir@,
            keystore_is_table: self.keystore_is_table,
            primary_is_table: self.primary_is_table,
            kind: self.kind@,
        }
    }
}

/// Why a configuration file is refused.
#[derive(Clone, Copy, Debug, PartialEq, Eq, Structural)]
pub enum ArtiConfigError {
    NotToml,
    RootNotTable,
    StorageNotTable,
    StateDirNotText,
    StateDirUnexpandable,
    CacheDirNotText,
    CacheDirUnexpandable,
    SameDirectories,
    KeystoreNotTable,
    PrimaryNotTable,
    KeystoreNotEphemeral,
    NotRendered,
}

/// The path that a setting gives, or the default where it is absent.
pub open spec fn path_of_setting(setting: PathModel, default: Seq<char>) -> Option<Seq<char>> {
    match setting {
        PathModel::Absent => Some(default),
        PathModel::Expanded(path) => Some(path),
        _ => None,
    }
}

/// The first thing for which the storage of a configuration is refused.
pub open spec fn arti_config_problem(
    storage: StorageModel,
    state_default: Seq<char>,
    cache_default: Seq<char>,
) -> Option<ArtiConfigError> {
    if !storage.root_is_table {
        Some(ArtiConfigError::RootNotTable)
    } else if !storage.storage_is_table {
        Some(ArtiConfigError::StorageNotTable)
    } else if storage.state_dir is NotText {
        Some(ArtiConfigError::StateDirNotText)
    } else if storage.state_dir is Unexpandable {
        Some(ArtiConfigError::StateDirUnexpandable)
    } else if storage.cache_dir is NotText {
        Some(ArtiConfigError::CacheDirNotText)
    } else if storage.cache_dir is Unexpandable {
        Some(ArtiConfigError::CacheDirUnexpandable)
    } else if path_components(path_of_setting(storage.state_dir, state_default)->0)
        == path_components(path_of_setting(storage.cache_dir, cache_default)->0) {
        Some(ArtiConfigError::SameDirectories)
    } else if !storage.keystore_is_table {
        Some(ArtiConfigError::KeystoreNotTable)
    } else if !storage.primary_is_table {
        Some(ArtiConfigError::PrimaryNotTable)
    } else if storage.kind != SettingModel::Absent && storage.kind != SettingModel::Text(
        "ephemeral"@,
    ) {
        Some(ArtiConfigError::KeystoreNotEphemeral)
    } else {
        None
    }
}

fn configured_or_default_path(setting: &PathSetting, default: &str) -> (path: Option<String>)
    ensures
        (match path {
            Some(path) => Some(path@),
            None => None,
        }) == path_of_setting(setting@, default@),
{
    match setting {
        PathSetting::Absent => Some(default.to_owned()),
        PathSetting::Expanded(path) => Some(path.clone()),
        _ => None,
    }
}

/// The state and cache directories that a configuration leads to. The two
/// must differ as paths, and the keystore must not outlive the process.
pub fn effective_storage(config: &TorTransportConfig, storage: &ArtiStorage) -> (directories:
    Result<(String, String), ArtiConfigError>)
    ensures
        match directories {
            Ok((state_dir, cache_dir)) => {
                &&& arti_config_problem(storage@, config.state_dir@, config.cache_dir@) is None
                &&& path_of_setting(storage.state_dir@, config.state_dir@) == Some(state_dir@)
                &&& path_of_setting(storage.cache_dir@, config.cache_dir@) == Some(cache_dir@)
            },
            Err(error) => arti_config_problem(storage@, config.state_dir@, config.cache_dir@)
                == Some(error),
        },
{
    if !storage.root_is_table {
        return Err(ArtiConfigError::RootNotTable);
    }
    if !storage.storage_is_table {
        return Err(ArtiConfigError::StorageNotTable);
    }
    let state_dir = match configured_or_default_path(
        &storage.state_dir,
        config.state_dir.as_str(),
    ) {
        Some(path) => path,
        None => {
            return match storage.state_dir {
                PathSetting::NotText => Err(ArtiConfigError::StateDirNotText),
                _ => Err(ArtiConfigError::StateDirUnexpandable),
            };
        },
    };
    let cache_dir = match configured_or_default_path(
        &storage.cache_dir,
        config.cache_dir.as_str(),
    ) {
        Some(path) => path,
        None => {
            return match storage.cache_dir {
                PathSetting::NotText => Err(ArtiConfigError::CacheDirNotText),
                _ => Err(ArtiConfigError::CacheDirUnexpandable),
            };
        },
    };
    if same_path(state_dir.as_str(), cache_dir.as_str()) {
        return Err(ArtiConfigError::SameDirectories);
    }
    if !storage.keystore_is_table {
        return Err(ArtiConfigError::KeystoreNotTable);
    }
    if !storage.primary_is_table {
        return Err(ArtiConfigError::PrimaryNotTable);
    }
    match &storage.kind {
        Setting::Absent => {},
        Setting::Text(kind) => {
            if *kind != String::from_str("ephemeral") {
                return Err(ArtiConfigError::KeystoreNotEphemeral);
            }
        },
        _ => {
            return Err(ArtiConfigError::KeystoreNotEphemeral);
        },
    }
    Ok((state_dir, cache_dir))
}

/// The path of the settings of storage.
pub open spec fn storage_path() -> Seq<Seq<char>> {
    seq!["storage"@]
}

/// The path of the settings of the keystore.
pub open spec fn keystore_path() -> Seq<Seq<char>> {
    storage_path().push("keystore"@)
}

/// The path of the settings of the primary keystore.
pub open spec fn primary_path() -> Seq<Seq<char>> {
    keystore_path().push("primary"@)
}

/// What stands at a path, of something that may stand there.
pub open spec fn setting_of(field: Option<FieldModel>) -> SettingModel {
    match field {
        None => SettingModel::Absent,
        Some(FieldModel::Text(text)) => SettingModel::Text(text),
        Some(FieldModel::Table(_)) => SettingModel::Table,
        Some(FieldModel::Other(_)) => SettingModel::Other,
    }
}

/// What a document holds at a path; it is absent where the document is no
/// table.
pub open spec fn found_at(document: FieldModel, path: Seq<Seq<char>>) -> SettingModel {
    match document {
        FieldModel::Table(table) => setting_of(field_at(table, path)),
        _ => SettingModel::Absent,
    }
}

/// Whether a table stands at a path, or can be put there.
pub open spec fn table_fits(found: SettingModel) -> bool {
    found is Absent || found is Table
}

/// A setting that should be a path, with what expanding its text gave.
pub open spec fn path_setting(found: SettingModel, expanded: Option<Seq<char>>) -> PathModel {
    match found {
        SettingModel::Absent => PathModel::Absent,
        SettingModel::Text(_) => match expanded {
            Some(path) => PathModel::Expanded(path),
            None => PathModel::Unexpandable,
        },
        _ => PathModel::NotText,
    }
}

/// What a document says of storage, with what expanding the two paths gave.
pub open spec fn storage_of(
    document: FieldModel,
    state: Option<Seq<char>>,
    cache: Option<Seq<char>>,
) -> StorageModel {
    StorageModel {
        root_is_table: document is Table,
        storage_is_table: table_fits(found_at(document, storage_path())),
        state_dir: path_setting(found_at(document, storage_path().push("state_dir"@)), state),
        cache_dir: path_setting(found_at(document, storage_path().push("cache_dir"@)), cache),
        keystore_is_table: table_fits(found_at(document, keystore_path())),
        primary_is_table: table_fits(found_at(document, primary_path())),
        kind: found_at(document, primary_path().push("kind"@)),
    }
}

/// A table with a text put under a name at a path; none where something on
/// the way is no table.
pub open spec fn with_setting(
    table: Option<Map<Seq<char>, FieldModel>>,
    path: Seq<Seq<char>>,
    name: Seq<char>,
    text: Seq<char>,
) -> Option<Map<Seq<char>, FieldModel>> {
    match table {
        Some(table) => if all_tables(table, path) {
            Some(with_text(table, path, name, text))
        } else {
            None
        },
        None => None,
    }
}

/// A table with a path of storage put in where it is absent.
pub open spec fn with_path(
    table: Option<Map<Seq<char>, FieldModel>>,
    setting: PathModel,
    name: Seq<char>,
    default: Seq<char>,
) -> Option<Map<Seq<char>, FieldModel>> {
    if setting is Absent {
        with_setting(table, storage_path(), name, default)
    } else {
        table
    }
}

/// The table that the client is given in place of its file: absent paths are
/// put in, and the primary keystore is ephemeral.
pub open spec fn effective_table(
    table: Map<Seq<char>, FieldModel>,
    storage: StorageModel,
    state_default: Seq<char>,
    cache_default: Seq<char>,
) -> Option<Map<Seq<char>, FieldModel>> {
    let state_put = with_path(Some(table), storage.state_dir, "state_dir"@, state_default);
    let cache_put = with_path(state_put, storage.cache_dir, "cache_dir"@, cache_default);
    with_setting(cache_put, primary_path(), "kind"@, "ephemeral"@)
}

/// The document that the client is given in place of its file.
pub open spec fn effective_document(
    document: FieldModel,
    storage: StorageModel,
    state_default: Seq<char>,
    cache_default: Seq<char>,
) -> Option<Seq<char>> {
    match document {
        FieldModel::Table(table) => match effective_table(
            table,
            storage,
            state_default,
            cache_default,
        ) {
            Some(table) => rendered(table),
            None => None,
        },
        _ => None,
    }
}

/// The first thing for which a configuration file is refused.
pub open spec fn arti_file_problem(
    document: Option<FieldModel>,
    state: Option<Seq<char>>,
    cache: Option<Seq<char>>,
    state_default: Seq<char>,
    cache_default: Seq<char>,
) -> Option<ArtiConfigError> {
    match document {
        None => Some(ArtiConfigError::NotToml),
        Some(document) => {
            let storage = storage_of(document, state, cache);
            if arti_config_problem(storage, state_default, cache_default) is Some {
                arti_config_problem(storage, state_default, cache_default)
            } else if effective_document(document, storage, state_default, cache_default) is None {
                Some(ArtiConfigError::NotRendered)
            } else {
                None
            }
        },
    }
}

/// The view of an optional text.
pub open spec fn optional_text(text: Option<String>) -> Option<Seq<char>> {
    match text {
        Some(text) => Some(text@),
        None => None,
    }
}

fn found_setting(document: &Field, path: &Vec<String>) -> (found: Setting)
    requires
        path@.len() > 0,
    ensures
        found@ == found_at(document@, texts(path@)),
{
    match document {
        Field::Table(table) => match find_field(table, path) {
            None => Setting::Absent,
            Some(Field::Text(text)) => Setting::Text(text),
            Some(Field::Table(_)) => Setting::Table,
            Some(Field::Other(_)) => Setting::Other,
        },
        _ => Setting::Absent,
    }
}

fn fits_table(found: &Setting) -> (fits: bool)
    ensures
        fits == table_fits(found@),
{
    match found {
        Setting::Absent => true,
        Setting::Table => true,
        _ => false,
    }
}

fn storage_names() -> (path: Vec<String>)
    ensures
        path@.len() == 1,
        texts(path@) == storage_path(),
{
    let mut path: Vec<String> = Vec::new();
    path.push("storage".to_owned());
    assert(texts(path@) =~= storage_path());
    path
}

fn push_name(path: &mut Vec<String>, name: &str)
    ensures
        final(path)@.len() == old(path)@.len() + 1,
        texts(final(path)@) == texts(old(path)@).push(name@),
{
    path.push(name.to_owned());
    assert(texts(path@) =~= texts(old(path)@).push(name@));
}

/// The text that a document gives for a path of storage, which is to be
/// expanded by the client's own rules.
pub fn configured_path(document: &str, name: &str) -> (text: Option<String>)
    ensures
        optional_text(text) == (match parsed(document@) {
            Some(document) => match found_at(document, storage_path().push(name@)) {
                SettingModel::Text(text) => Some(text),
                _ => None,
            },
            None => None,
        }),
{
    let mut path = storage_names();
    push_name(&mut path, name);
    match parse_document(document) {
        Some(document) => match found_setting(&document, &path) {
            Setting::Text(text) => Some(text),
            _ => None,
        },
        None => None,
    }
}

fn read_path(document: &Field, name: &str, expanded: Option<String>) -> (setting: PathSetting)
    ensures
        setting@ == path_setting(
            found_at(document@, storage_path().push(name@)),
            optional_text(expanded),
        ),
{
    let mut path = storage_names();
    push_name(&mut path, name);
    match found_setting(document, &path) {
        Setting::Absent => PathSetting::Absent,
        Setting::Text(_) => match expanded {
            Some(path) => PathSetting::Expanded(path),
            None => PathSetting::Unexpandable,
        },
        _ => PathSetting::NotText,
    }
}

/// What a document says of storage. The two texts are what expanding its two
/// paths gave.
pub fn read_storage(document: &Field, state: Option<String>, cache: Option<String>) -> (storage:
    ArtiStorage)
    ensures
        storage@ == storage_of(document@, optional_text(state), optional_text(cache)),
{
    let root_is_table = match document {
        Field::Table(_) => true,
        _ => false,
    };
    let mut path = storage_names();
    let storage_is_table = fits_table(&found_setting(document, &path));
    push_name(&mut path, "keystore");
    let keystore_is_table = fits_table(&found_setting(document, &path));
    push_name(&mut path, "primary");
    let primary_is_table = fits_table(&found_setting(document, &path));
    push_name(&mut path, "kind");
    let kind = found_setting(document, &path);
    let state_dir = read_path(document, "state_dir", state);
    let cache_dir = read_path(document, "cache_dir", cache);
    ArtiStorage {
        root_is_table,
        storage_is_table,
        state_dir,
        cache_dir,
        keystore_is_table,
        primary_is_table,
        kind,
    }
}

fn put_path(
    table: &mut toml::map::Map<String, toml::Value>,
    setting: &PathSetting,
    name: &str,
    default: &str,
) -> (done: bool)
    ensures
        (if done {
            Some(contents(*final(table)))
        } else {
            None
        }) == with_path(Some(contents(*old(table))), setting@, name@, default@),
{
    match setting {
        PathSetting::Absent => set_text(table, &storage_names(), name, default),
        _ => true,
    }
}

/// Completes the table of the client's file: absent paths are put in, and the
/// primary keystore is ephemeral, whatever the file said.
pub fn complete_table(
    config: &TorTransportConfig,
    table: toml::map::Map<String, toml::Value>,
    storage: &ArtiStorage,
) -> (completed: Option<toml::map::Map<String, toml::Value>>)
    ensures
        (match completed {
            Some(completed) => Some(contents(completed)),
            None => None,
        }) == effective_table(contents(table), storage@, config.state_dir@, config.cache_dir@),
{
    let mut table = table;
    if !put_path(&mut table, &storage.state_dir, "state_dir", config.state_dir.as_str()) {
        return None;
    }
    if !put_path(&mut table, &storage.cache_dir, "cache_dir", config.cache_dir.as_str()) {
        return None;
    }
    let mut path = storage_names();
    push_name(&mut path, "keystore");
    push_name(&mut path, "primary");
    if set_text(&mut table, &path, "kind", "ephemeral") {
        Some(table)
    } else {
        None
    }
}

/// Renders the document that the client is given in place of its file.
pub fn render_document(config: &TorTransportConfig, document: Field, storage: &ArtiStorage) -> (text:
    Option<String>)
    ensures
        optional_text(text) == effective_document(
            document@,
            storage@,
            config.state_dir@,
            config.cache_dir@,
        ),
{
    match document {
        Field::Table(table) => match complete_table(config, table, storage) {
            Some(table) => render_table(table),
            None => None,
        },
        _ => None,
    }
}

/// A file that is not refused for its storage can be completed; then its
/// primary keystore is ephemeral, and the paths of storage that it gave stay.
pub proof fn the_keystore_is_ephemeral(
    table: Map<Seq<char>, FieldModel>,
    state: Option<Seq<char>>,
    cache: Option<Seq<char>>,
    state_default: Seq<char>,
    cache_default: Seq<char>,
)
    requires
        arti_config_problem(
            storage_of(FieldModel::Table(table), state, cache),
            state_default,
            cache_default,
        ) is None,
    ensures
        ({
            let storage = storage_of(FieldModel::Table(table), state, cache);
            let completed = effective_table(table, storage, state_default, cache_default);
            &&& completed is Some
            &&& found_at(FieldModel::Table(completed->0), primary_path().push("kind"@))
                == SettingModel::Text("ephemeral"@)
            &&& found_at(FieldModel::Table(completed->0), storage_path().push("state_dir"@)) == (
            if storage.state_dir is Absent {
                SettingModel::Text(state_default)
            } else {
                found_at(FieldModel::Table(table), storage_path().push("state_dir"@))
            })
            &&& found_at(FieldModel::Table(completed->0), storage_path().push("cache_dir"@)) == (
            if storage.cache_dir is Absent {
                SettingModel::Text(cache_default)
            } else {
                found_at(FieldModel::Table(table), storage_path().push("cache_dir"@))
            })
        }),
{
    reveal_strlit("storage");
    reveal_strlit("keystore");
    reveal_strlit("primary");
    reveal_strlit("state_dir");
    reveal_strlit("cache_dir");
    assert("state_dir"@[0] == 's' && "cache_dir"@[0] == 'c');
    let storage = storage_of(FieldModel::Table(table), state, cache);
    let state_put = with_path(Some(table), storage.state_dir, "state_dir"@, state_default);
    lemma_fitting(table);
    lemma_put_keeps(table, "state_dir"@, state_default, "cache_dir"@);
    let first = state_put->0;
    lemma_fitting(first);
    lemma_put_keeps(first, "cache_dir"@, cache_default, "state_dir"@);
    let second = with_path(state_put, storage.cache_dir, "cache_dir"@, cache_default)->0;
    lemma_fitting(second);
    what_was_put_is_found(second, primary_path(), "kind"@, "ephemeral"@);
    lemma_apart_from_kind("state_dir"@);
    lemma_apart_from_kind("cache_dir"@);
    what_stands_elsewhere_stays(
        second,
        primary_path(),
        "kind"@,
        "ephemeral"@,
        storage_path().push("state_dir"@),
    );
    what_stands_elsewhere_stays(
        second,
        primary_path(),
        "kind"@,
        "ephemeral"@,
        storage_path().push("cache_dir"@),
    );
}

proof fn lemma_apart_from_kind(name: Seq<char>)
    requires
        name != "keystore"@,
    ensures
        !storage_path().push(name).is_prefix_of(primary_path().push("kind"@)),
        !primary_path().push("kind"@).is_prefix_of(storage_path().push(name)),
{
    let a = storage_path().push(name);
    let b = primary_path().push("kind"@);
    assert(a[1] == name && b[1] == "keystore"@);
    if a.is_prefix_of(b) {
        assert(b.subrange(0, 2)[1] == a[1]);
    }
}

/// The tables of storage fit where the settings on the way do.
proof fn lemma_fitting(table: Map<Seq<char>, FieldModel>)
    ensures
        table_fits(found_at(FieldModel::Table(table), storage_path())) == all_tables(
            table,
            storage_path(),
        ),
        (table_fits(found_at(FieldModel::Table(table), storage_path())) && table_fits(
            found_at(FieldModel::Table(table), keystore_path()),
        ) && table_fits(found_at(FieldModel::Table(table), primary_path()))) == all_tables(
            table,
            primary_path(),
        ),
{
    reveal_with_fuel(all_tables, 4);
    reveal_with_fuel(field_at, 4);
    let storage = storage_path();
    let keystore = keystore_path();
    let primary = primary_path();
    assert(storage.skip(1) =~= Seq::empty());
    assert(keystore.skip(1) =~= seq!["keystore"@]);
    assert(keystore.skip(1).skip(1) =~= Seq::empty());
    assert(primary.skip(1) =~= seq!["keystore"@, "primary"@]);
    assert(primary.skip(1).skip(1) =~= seq!["primary"@]);
    assert(primary.skip(1).skip(1).skip(1) =~= Seq::empty());
}

/// Putting a path of storage in keeps the other one, and the keystore.
proof fn lemma_put_keeps(
    table: Map<Seq<char>, FieldModel>,
    name: Seq<char>,
    text: Seq<char>,
    other: Seq<char>,
)
    requires
        all_tables(table, storage_path()),
        name != other,
        name != "keystore"@,
    ensures
        ({
            let after = FieldModel::Table(with_text(table, storage_path(), name, text));
            let before = FieldModel::Table(table);
            &&& found_at(after, storage_path().push(name)) == SettingModel::Text(text)
            &&& found_at(after, storage_path().push(other)) == found_at(
                before,
                storage_path().push(other),
            )
            &&& found_at(after, storage_path()) == SettingModel::Table
            &&& found_at(after, keystore_path()) == found_at(before, keystore_path())
            &&& found_at(after, primary_path()) == found_at(before, primary_path())
        }),
{
    reveal_with_fuel(field_at, 2);
    let at = storage_path().push(name);
    what_was_put_is_found(table, storage_path(), name, text);
    assert forall|path: Seq<Seq<char>>|
        path.len() > 1 && path[1] != name implies #[trigger] field_at(
        with_text(table, storage_path(), name, text),
        path,
    ) == field_at(table, path) by {
        assert(!path.is_prefix_of(at)) by {
            if path.is_prefix_of(at) {
                assert(at.subrange(0, path.len() as int)[1] == path[1]);
            }
        }
        assert(!at.is_prefix_of(path)) by {
            if at.is_prefix_of(path) {
                assert(path.subrange(0, 2)[1] == at[1]);
            }
        }
        what_stands_elsewhere_stays(table, storage_path(), name, text, path);
    }
    assert(storage_path().push(other)[1] == other);
    assert(keystore_path()[1] == "keystore"@);
    assert(primary_path()[1] == "keystore"@);
}

/// What the onion client is started with.
#[derive(Debug)]
pub struct LoadedArtiConfig {
    /// The document in place of the client's file; without one the client's
    /// defaults are taken, with the two directories and an ephemeral
    /// keystore.
    pub document: Option<String>,
    pub state_dir: String,
    pub cache_dir: String,
}

/// What the onion client is started with: the configured directories where
/// there is no file, and else what the file leads to.
pub fn load_arti_config(
    config: &TorTransportConfig,
    document: Option<&str>,
    state: Option<String>,
    cache: Option<String>,
) -> (loaded: Result<LoadedArtiConfig, ArtiConfigError>)
    ensures
        match document {
            None => {
                &&& loaded is Ok
                &&& loaded->Ok_0.document is None
                &&& loaded->Ok_0.state_dir@ == config.state_dir@
                &&& loaded->Ok_0.cache_dir@ == config.cache_dir@
            },
            Some(document) => {
                let problem = arti_file_problem(
                    parsed(document@),
                    optional_text(state),
                    optional_text(cache),
                    config.state_dir@,
                    config.cache_dir@,
                );
                match loaded {
                    Ok(loaded) => {
                        let root = parsed(document@)->0;
                        let storage = storage_of(root, optional_text(state), optional_text(cache));
                        &&& problem is None
                        &&& optional_text(loaded.document) == effective_document(
                            root,
                            storage,
                            config.state_dir@,
                            config.cache_dir@,
                        )
                        &&& Some(loaded.state_dir@) == path_of_setting(
                            storage.state_dir,
                            config.state_dir@,
                        )
                        &&& Some(loaded.cache_dir@) == path_of_setting(
                            storage.cache_dir,
                            config.cache_dir@,
                        )
                    },
                    Err(error) => problem == Some(error),
                }
            },
        },
{
    let document = match document {
        Some(document) => document,
        None => {
            return Ok(
                LoadedArtiConfig {
                    document: None,
                    state_dir: config.state_dir.clone(),
                    cache_dir: config.cache_dir.clone(),
                },
            );
        },
    };
    let document = match parse_document(document) {
        Some(document) => document,
        None => {
            return Err(ArtiConfigError::NotToml);
        },
    };
    let storage = read_storage(&document, state, cache);
    let (state_dir, cache_dir) = match effective_storage(config, &storage) {
        Ok(directories) => directories,
        Err(error) => {
            return Err(error);
        },
    };
    match render_document(config, document, &storage) {
        Some(text) => Ok(LoadedArtiConfig { document: Some(text), state_dir, cache_dir }),
        None => Err(ArtiConfigError::NotRendered),
    }
}

/// A configuration file is refused for the first thing wrong with it: that it is no
/// table, or says of storage, of its two directories, or of the primary keystore what
/// cannot be; and both directories must not be the same, nor the keystore be any but
/// an ephemeral one.
pub proof fn a_file_is_refused_for_the_first_thing_wrong(
    table: Map<Seq<char>, FieldModel>,
    state: Option<Seq<char>>,
    cache: Option<Seq<char>>,
    state_default: Seq<char>,
    cache_default: Seq<char>,
)
    ensures
        ({
            let problem = arti_config_problem(
                storage_of(FieldModel::Table(table), state, cache),
                state_default,
                cache_default,
            );
            let storage = setting_of(field_at(table, seq!["storage"@]));
            let state_dir = setting_of(field_at(table, seq!["storage"@, "state_dir"@]));
            let cache_dir = setting_of(field_at(table, seq!["storage"@, "cache_dir"@]));
            let keystore = setting_of(field_at(table, seq!["storage"@, "keystore"@]));
            let primary = setting_of(field_at(table, seq!["storage"@, "keystore"@, "primary"@]));
            let kind = setting_of(
                field_at(table, seq!["storage"@, "keystore"@, "primary"@, "kind"@]),
            );
            let used_state = if state_dir is Absent {
                Some(state_default)
            } else {
                state
            };
            let used_cache = if cache_dir is Absent {
                Some(cache_default)
            } else {
                cache
            };
            let storage_fine = storage is Absent || storage is Table;
            let state_fine = storage_fine && (state_dir is Absent || state_dir is Text);
            let state_had = state_fine && used_state is Some;
            let cache_fine = state_had && (cache_dir is Absent || cache_dir is Text);
            let cache_had = cache_fine && used_cache is Some;
            let apart = cache_had && path_components(used_state->0) != path_components(
                used_cache->0,
            );
            let keystore_fine = apart && (keystore is Absent || keystore is Table);
            let primary_fine = keystore_fine && (primary is Absent || primary is Table);
            let fine = primary_fine && (kind is Absent || kind == SettingModel::Text(
                "ephemeral"@,
            ));
            &&& problem is None <==> fine
            &&& !storage_fine ==> problem == Some(ArtiConfigError::StorageNotTable)
            &&& storage_fine && !state_fine ==> problem == Some(ArtiConfigError::StateDirNotText)
            &&& state_fine && !state_had ==> problem == Some(ArtiConfigError::StateDirUnexpandable)
            &&& state_had && !cache_fine ==> problem == Some(ArtiConfigError::CacheDirNotText)
            &&& cache_fine && !cache_had ==> problem == Some(ArtiConfigError::CacheDirUnexpandable)
            &&& cache_had && !apart ==> problem == Some(ArtiConfigError::SameDirectories)
            &&& apart && !keystore_fine ==> problem == Some(ArtiConfigError::KeystoreNotTable)
            &&& keystore_fine && !primary_fine ==> problem == Some(
                ArtiConfigError::PrimaryNotTable,
            )
        }),
        storage_path() == seq!["storage"@],
        primary_path() == seq!["storage"@, "keystore"@, "primary"@],
{
    assert(storage_path().push("state_dir"@) =~= seq!["storage"@, "state_dir"@]);
    assert(storage_path().push("cache_dir"@) =~= seq!["storage"@, "cache_dir"@]);
    assert(keystore_path() =~= seq!["storage"@, "keystore"@]);
    assert(primary_path() =~= seq!["storage"@, "keystore"@, "primary"@]);
    assert(primary_path().push("kind"@) =~= seq![
        "storage"@,
        "keystore"@,
        "primary"@,
        "kind"@,
    ]);
}

} // verus!
