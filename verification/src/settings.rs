//! Tables of settings: what stands at a path of names, and how a text is put
//! under a name in a table at a path.

use crate::endpoints::texts;
use vstd::prelude::*;

verus! {

/// A table of TOML: what `toml` keeps under names.
#[verifier::external_type_specification]
#[verifier::external_body]
#[verifier::reject_recursive_types(K)]
#[verifier::reject_recursive_types(V)]
pub struct ExTable<K, V>(toml::map::Map<K, V>);

/// A value of TOML.
#[verifier::external_type_specification]
#[verifier::external_body]
pub struct ExValue(toml::Value);

/// What stands under a name, as a plain value.
pub enum FieldModel {
    Text(Seq<char>),
    Table(Map<Seq<char>, FieldModel>),
    /// A value that is neither a text nor a table.
    Other(toml::Value),
}

/// What stands under a name.
pub enum Field {
    Text(String),
    Table(toml::map::Map<String, toml::Value>),
    /// A value that is neither a text nor a table.
    Other(toml::Value),
}

impl Field {
    pub open spec fn view(&self) -> FieldModel {
        match self {
            Field::Text(text) => FieldModel::Text(text@),
            Field::Table(table) => FieldModel::Table(contents(*table)),
            Field::Other(value) => FieldModel::Other(*value),
        }
    }
}

/// The view of what may stand under a name.
pub open spec fn optional_field(field: Option<Field>) -> Option<FieldModel> {
    match field {
        Some(field) => Some(field@),
        None => None,
    }
}

/// What a table holds under its names.
pub uninterp spec fn contents(table: toml::map::Map<String, toml::Value>) -> Map<
    Seq<char>,
    FieldModel,
>;

/// What `toml::from_str` makes of a text; nothing where the text is no TOML
/// document.
pub uninterp spec fn parsed(text: Seq<char>) -> Option<FieldModel>;

/// The text that `toml::to_string` makes of a table with these contents;
/// nothing where it makes none.
pub uninterp spec fn rendered(table: Map<Seq<char>, FieldModel>) -> Option<Seq<char>>;

/// Parses a document.
///
/// Calls `toml::from_str` for a `toml::Value`; the outcome is a function of
/// the text.
#[verifier::external_body]
pub(crate) fn parse_document(text: &str) -> (document: Option<Field>)
    ensures
        optional_field(document) == parsed(text@),
{
    Some(match toml::from_str::<toml::Value>(text).ok()? {
        toml::Value::String(text) => Field::Text(text),
        toml::Value::Table(table) => Field::Table(table),
        other => Field::Other(other),
    })
}

/// Renders a document.
///
/// Calls `toml::to_string` on a `toml::Value` that is the table; the outcome
/// is a function of what the table holds. That the text can be parsed again
/// is not said: the parser refuses keys with more parts than the renderer
/// writes.
#[verifier::external_body]
pub(crate) fn render_table(table: toml::map::Map<String, toml::Value>) -> (text: Option<String>)
    ensures
        (match text {
            Some(text) => Some(text@),
            None => None,
        }) == rendered(contents(table)),
{
    toml::to_string(&toml::Value::Table(table)).ok()
}

/// What an empty table holds.
pub open spec fn no_fields() -> Map<Seq<char>, FieldModel> {
    Map::empty()
}

/// A table that holds nothing.
///
/// Calls `toml::map::Map::new`.
#[verifier::external_body]
fn empty_table() -> (table: toml::map::Map<String, toml::Value>)
    ensures
        contents(table) == no_fields(),
{
    toml::map::Map::new()
}

/// A copy of what a table holds under a name.
///
/// Calls `toml::map::Map::get`, which finds what stands under the name, and
/// nothing where nothing does.
#[verifier::external_body]
fn get_field(table: &toml::map::Map<String, toml::Value>, name: &str) -> (field: Option<Field>)
    ensures
        optional_field(field) == field_under(contents(*table), name@),
{
    Some(match table.get(name)? {
        toml::Value::String(text) => Field::Text(text.clone()),
        toml::Value::Table(table) => Field::Table(table.clone()),
        other => Field::Other(other.clone()),
    })
}

/// Puts a text or a table under a name, in place of what stood there.
///
/// Calls `toml::map::Map::insert`, which leaves everything under other names.
#[verifier::external_body]
fn insert_field(table: &mut toml::map::Map<String, toml::Value>, name: &str, field: Field)
    requires
        !(field is Other),
    ensures
        contents(*final(table)) == contents(*old(table)).insert(name@, field@),
{
    let value = match field {
        Field::Text(text) => toml::Value::String(text),
        Field::Table(table) => toml::Value::Table(table),
        Field::Other(value) => value,
    };
    table.insert(name.to_owned(), value);
}

/// What stands under a name, if anything does.
pub open spec fn field_under(table: Map<Seq<char>, FieldModel>, name: Seq<char>) -> Option<
    FieldModel,
> {
    if table.dom().contains(name) {
        Some(table[name])
    } else {
        None
    }
}

/// What a table holds at a path of names; nothing where something on the way
/// is missing or no table.
pub open spec fn field_at(table: Map<Seq<char>, FieldModel>, path: Seq<Seq<char>>) -> Option<
    FieldModel,
>
    decreases path.len(),
{
    if path.len() == 0 {
        Some(FieldModel::Table(table))
    } else {
        match field_under(table, path[0]) {
            Some(FieldModel::Table(inner)) => field_at(inner, path.skip(1)),
            Some(field) => if path.len() == 1 {
                Some(field)
            } else {
                None
            },
            None => None,
        }
    }
}

/// The table under a name: an empty one where nothing stands there, and none
/// where what stands there is no table.
pub open spec fn table_under(table: Map<Seq<char>, FieldModel>, name: Seq<char>) -> Option<
    Map<Seq<char>, FieldModel>,
> {
    match field_under(table, name) {
        None => Some(no_fields()),
        Some(FieldModel::Table(inner)) => Some(inner),
        Some(_) => None,
    }
}

/// Whether everything on a path that is there is a table.
pub open spec fn all_tables(table: Map<Seq<char>, FieldModel>, path: Seq<Seq<char>>) -> bool
    decreases path.len(),
{
    path.len() == 0 || (table_under(table, path[0]) matches Some(inner) && all_tables(
        inner,
        path.skip(1),
    ))
}

/// A table in which a text stands under a name in the table at a path, the
/// tables on the way having been made where they were missing.
pub open spec fn with_text(
    table: Map<Seq<char>, FieldModel>,
    path: Seq<Seq<char>>,
    name: Seq<char>,
    text: Seq<char>,
) -> Map<Seq<char>, FieldModel>
    decreases path.len(),
{
    if path.len() == 0 {
        table.insert(name, FieldModel::Text(text))
    } else {
        match table_under(table, path[0]) {
            Some(inner) => table.insert(
                path[0],
                FieldModel::Table(with_text(inner, path.skip(1), name, text)),
            ),
            None => table,
        }
    }
}

/// The table under a name. It is made where nothing stands there; where what
/// stands there is no table, nothing is done.
pub fn table_entry(parent: &mut toml::map::Map<String, toml::Value>, name: &str) -> (table: Option<
    toml::map::Map<String, toml::Value>,
>)
    ensures
        (match table {
            Some(table) => Some(contents(table)),
            None => None,
        }) == table_under(contents(*old(parent)), name@),
        contents(*final(parent)) == (if contents(*old(parent)).dom().contains(name@) {
            contents(*old(parent))
        } else {
            contents(*old(parent)).insert(name@, FieldModel::Table(no_fields()))
        }),
{
    match get_field(parent, name) {
        None => {
            insert_field(parent, name, Field::Table(empty_table()));
            Some(empty_table())
        },
        Some(Field::Table(table)) => Some(table),
        Some(_) => None,
    }
}

proof fn lemma_empty_takes_tables(path: Seq<Seq<char>>)
    ensures
        all_tables(no_fields(), path),
    decreases path.len(),
{
    if path.len() > 0 {
        lemma_empty_takes_tables(path.skip(1));
    }
}

/// Puts a text under a name in the table at the rest of a path, if everything
/// there on the way is a table.
fn set_from(
    table: &mut toml::map::Map<String, toml::Value>,
    path: &Vec<String>,
    from: usize,
    name: &str,
    text: &str,
) -> (done: bool)
    requires
        from <= path@.len(),
    ensures
        done == all_tables(contents(*old(table)), texts(path@).skip(from as int)),
        contents(*final(table)) == (if done {
            with_text(contents(*old(table)), texts(path@).skip(from as int), name@, text@)
        } else {
            contents(*old(table))
        }),
    decreases path@.len() - from,
{
    let ghost rest = texts(path@).skip(from as int);
    let ghost before = contents(*table);
    if from == path.len() {
        insert_field(table, name, Field::Text(text.to_owned()));
        return true;
    }
    assert(rest[0] == path@[from as int]@);
    assert(rest.skip(1) =~= texts(path@).skip(from + 1));
    let mut inner = match table_entry(table, path[from].as_str()) {
        Some(inner) => inner,
        None => {
            return false;
        },
    };
    proof {
        if !before.dom().contains(rest[0]) {
            lemma_empty_takes_tables(rest.skip(1));
        }
    }
    if !set_from(&mut inner, path, from + 1, name, text) {
        return false;
    }
    insert_field(table, path[from].as_str(), Field::Table(inner));
    assert(contents(*table) =~= with_text(before, rest, name@, text@));
    true
}

/// Puts a text under a name in the table at a path, and makes the tables that
/// are missing on the way. Where something on the way is no table, nothing is
/// done.
pub fn set_text(
    table: &mut toml::map::Map<String, toml::Value>,
    path: &Vec<String>,
    name: &str,
    text: &str,
) -> (done: bool)
    ensures
        done == all_tables(contents(*old(table)), texts(path@)),
        contents(*final(table)) == (if done {
            with_text(contents(*old(table)), texts(path@), name@, text@)
        } else {
            contents(*old(table))
        }),
{
    assert(texts(path@).skip(0) =~= texts(path@));
    set_from(table, path, 0, name, text)
}

fn find_from(table: &toml::map::Map<String, toml::Value>, path: &Vec<String>, from: usize) -> (field:
    Option<Field>)
    requires
        from < path@.len(),
    ensures
        optional_field(field) == field_at(contents(*table), texts(path@).skip(from as int)),
    decreases path@.len() - from,
{
    let ghost rest = texts(path@).skip(from as int);
    assert(rest[0] == path@[from as int]@);
    assert(rest.skip(1) =~= texts(path@).skip(from + 1));
    proof {
        reveal_with_fuel(field_at, 2);
    }
    let count: usize = path.len();
    match get_field(table, path[from].as_str()) {
        Some(Field::Table(inner)) => if from + 1 == count {
            Some(Field::Table(inner))
        } else {
            find_from(&inner, path, from + 1)
        },
        Some(field) => if from + 1 == count {
            Some(field)
        } else {
            None
        },
        None => None,
    }
}

/// What a table holds at a path of names.
pub fn find_field(table: &toml::map::Map<String, toml::Value>, path: &Vec<String>) -> (field:
    Option<Field>)
    requires
        path@.len() > 0,
    ensures
        optional_field(field) == field_at(contents(*table), texts(path@)),
{
    assert(texts(path@).skip(0) =~= texts(path@));
    find_from(table, path, 0)
}

/// What was put under a name in the table at a path stands there.
pub proof fn what_was_put_is_found(
    table: Map<Seq<char>, FieldModel>,
    path: Seq<Seq<char>>,
    name: Seq<char>,
    text: Seq<char>,
)
    requires
        all_tables(table, path),
    ensures
        field_at(with_text(table, path, name, text), path.push(name)) == Some(
            FieldModel::Text(text),
        ),
    decreases path.len(),
{
    let at = path.push(name);
    assert(at.len() == path.len() + 1);
    if path.len() > 0 {
        let inner = table_under(table, path[0])->0;
        what_was_put_is_found(inner, path.skip(1), name, text);
        assert(at[0] == path[0]);
        assert(at.skip(1) =~= path.skip(1).push(name));
    }
}

/// Putting a text under a name leaves everything at paths that lead neither
/// to it, nor through it, nor from the root towards it.
pub proof fn what_stands_elsewhere_stays(
    table: Map<Seq<char>, FieldModel>,
    path: Seq<Seq<char>>,
    name: Seq<char>,
    text: Seq<char>,
    other: Seq<Seq<char>>,
)
    requires
        all_tables(table, path),
        !other.is_prefix_of(path.push(name)),
        !path.push(name).is_prefix_of(other),
    ensures
        field_at(with_text(table, path, name, text), other) == field_at(table, other),
    decreases path.len(),
{
    let at = path.push(name);
    assert(other.len() > 0) by {
        if other.len() == 0 {
            assert(at.subrange(0, 0) =~= other);
        }
    }
    if path.len() == 0 {
        assert(other[0] != name) by {
            if other[0] == name {
                assert(other.subrange(0, 1) =~= at);
            }
        }
    } else if other[0] == path[0] {
        let inner = table_under(table, path[0])->0;
        let rest = other.skip(1);
        let end = path.skip(1).push(name);
        assert(at.skip(1) =~= end);
        assert(!rest.is_prefix_of(end)) by {
            if rest.is_prefix_of(end) {
                assert(other =~= at.subrange(0, other.len() as int)) by {
                    assert forall|i: int| 0 <= i < other.len() implies other[i] == at[i] by {
                        if i > 0 {
                            assert(rest[i - 1] == end.subrange(0, rest.len() as int)[i - 1]);
                        }
                    }
                }
            }
        }
        assert(!end.is_prefix_of(rest)) by {
            if end.is_prefix_of(rest) {
                assert(at =~= other.subrange(0, at.len() as int)) by {
                    assert forall|i: int| 0 <= i < at.len() implies at[i] == other[i] by {
                        if i > 0 {
                            assert(end[i - 1] == rest.subrange(0, end.len() as int)[i - 1]);
                        }
                    }
                }
            }
        }
        what_stands_elsewhere_stays(inner, path.skip(1), name, text, rest);
        if !table.dom().contains(path[0]) {
            assert(rest.len() > 0);
            assert(field_at(inner, rest) is None);
        }
    }
}

} // verus!
