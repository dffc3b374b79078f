//! The resolved configuration: one table, built from a file's table and the
//! environment, and answered by dotted path.
use vstd::prelude::*;
use crate::text::{scalar_text, scalar_to_text};
use crate::resolve::{lemma_lookup_in_table, lemma_lookup_plain, lookup, lookup_path};
use crate::value::{
    duplicate_entries, find_entry, insert_entry, keys_unique, kind_of, lemma_array_model, lemma_table_model,
    table_get, table_view, Kind, Tree, Value,
};

verus! {

/// Why a query failed. Each variant names the path or field concerned.
#[derive(Debug)]
pub enum ConfigError {
    /// The path reaches no value.
    NotFound(String),
    /// The path reaches a value of another kind: path, kind asked for, kind found.
    TypeMismatch(String, Kind, Kind),
    /// A required field has no top-level key.
    MissingField(String),
    /// A field's key holds a value of another kind: field, kind asked for, kind found.
    FieldTypeMismatch(String, Kind, Kind),
}

/// Model of a [`ConfigError`].
pub enum Failure {
    NotFound(Seq<char>),
    TypeMismatch(Seq<char>, Kind, Kind),
    MissingField(Seq<char>),
    FieldTypeMismatch(Seq<char>, Kind, Kind),
}

impl View for ConfigError {
    type V = Failure;

    open spec fn view(&self) -> Failure {
        match self {
            ConfigError::NotFound(p) => Failure::NotFound(p@),
            ConfigError::TypeMismatch(p, e, f) => Failure::TypeMismatch(p@, *e, *f),
            ConfigError::MissingField(n) => Failure::MissingField(n@),
            ConfigError::FieldTypeMismatch(n, e, f) => Failure::FieldTypeMismatch(n@, *e, *f),
        }
    }
}

/// A number as stored: an integer, or the bit pattern of an IEEE-754 double.
#[derive(Clone, Copy, Debug, PartialEq, Eq, Structural)]
pub enum Number {
    Int(i64),
    Float(u64),
}

/// One field of a record shape: its name, the kind of value it takes, and
/// whether it may be absent.
#[derive(Debug)]
pub struct Field {
    pub name: String,
    pub kind: Kind,
    pub optional: bool,
}

/// A resolved configuration. It is not changed after construction.
#[derive(Debug)]
pub struct ConfigLoader {
    settings: Vec<(String, Value)>,
}

impl View for ConfigLoader {
    type V = Seq<(Seq<char>, Tree)>;

    closed spec fn view(&self) -> Seq<(Seq<char>, Tree)> {
        table_view(self.settings@)
    }
}

/// The value of the last environment variable named `key`.
pub open spec fn env_get(env: Seq<(Seq<char>, Seq<char>)>, key: Seq<char>) -> Option<Seq<char>>
    decreases env.len(),
{
    if env.len() == 0 {
        None
    } else if env.last().0 == key {
        Some(env.last().1)
    } else {
        env_get(env.drop_last(), key)
    }
}

pub open spec fn env_view(env: Seq<(String, String)>) -> Seq<(Seq<char>, Seq<char>)> {
    Seq::new(env.len(), |i: int| (env[i].0@, env[i].1@))
}

/// What the file's table overlaid with the environment holds under `key`:
/// the environment's string where it has the key, else the file's value.
pub open spec fn overlay_get(
    file: Seq<(Seq<char>, Tree)>,
    env: Seq<(Seq<char>, Seq<char>)>,
    key: Seq<char>,
) -> Option<Tree> {
    match env_get(env, key) {
        Some(s) => Some(Tree::Str(s)),
        None => table_get(file, key),
    }
}

/// What `get_string` gives for `path`.
pub open spec fn string_result(es: Seq<(Seq<char>, Tree)>, path: Seq<char>) -> Result<Seq<char>, Failure> {
    match lookup(es, path) {
        None => Err(Failure::NotFound(path)),
        Some(Tree::Str(s)) => Ok(s),
        Some(t) => Err(Failure::TypeMismatch(path, Kind::Str, kind_of(t))),
    }
}

/// What `get_int` gives for `path`.
pub open spec fn int_result(es: Seq<(Seq<char>, Tree)>, path: Seq<char>) -> Result<int, Failure> {
    match lookup(es, path) {
        None => Err(Failure::NotFound(path)),
        Some(Tree::Int(i)) => Ok(i),
        Some(t) => Err(Failure::TypeMismatch(path, Kind::Int, kind_of(t))),
    }
}

/// What `get_number` gives for `path`: an integer stays an integer.
pub open spec fn number_result(es: Seq<(Seq<char>, Tree)>, path: Seq<char>) -> Result<Number, Failure> {
    match lookup(es, path) {
        None => Err(Failure::NotFound(path)),
        Some(Tree::Int(i)) => Ok(Number::Int(i as i64)),
        Some(Tree::Float(b)) => Ok(Number::Float(b)),
        Some(t) => Err(Failure::TypeMismatch(path, Kind::Float, kind_of(t))),
    }
}

/// Item `i` is the first of `items` that has no text.
pub open spec fn is_first_textless(items: Seq<Tree>, i: int) -> bool {
    &&& 0 <= i < items.len()
    &&& scalar_text(items[i]) is None
    &&& forall|j: int| 0 <= j < i ==> scalar_text(items[j]) is Some
}

/// What `get_vec` gives for `path`: the texts of an array's items, in order.
pub open spec fn strings_result(es: Seq<(Seq<char>, Tree)>, path: Seq<char>) -> Result<Seq<Seq<char>>, Failure> {
    match lookup(es, path) {
        None => Err(Failure::NotFound(path)),
        Some(Tree::Array(items)) => {
            if exists|i: int| is_first_textless(items, i) {
                let i = choose|i: int| is_first_textless(items, i);
                Err(Failure::TypeMismatch(path, Kind::Str, kind_of(items[i])))
            } else {
                Ok(Seq::new(items.len(), |i: int| scalar_text(items[i])->Some_0))
            }
        },
        Some(t) => Err(Failure::TypeMismatch(path, Kind::Array, kind_of(t))),
    }
}

/// What `get_sub_config` gives for `path`: the entries of the table there.
pub open spec fn table_result(es: Seq<(Seq<char>, Tree)>, path: Seq<char>) -> Result<Seq<(Seq<char>, Tree)>, Failure> {
    match lookup(es, path) {
        None => Err(Failure::NotFound(path)),
        Some(Tree::Table(t)) => Ok(t),
        Some(t) => Err(Failure::TypeMismatch(path, Kind::Table, kind_of(t))),
    }
}

/// A value of kind `found` serves a field of kind `wanted`; an integer
/// serves a floating-point field.
pub open spec fn serves(wanted: Kind, found: Kind) -> bool {
    wanted == found || (wanted == Kind::Float && found == Kind::Int)
}

/// What a record field reads from the top-level keys of `es`.
pub open spec fn field_result(
    es: Seq<(Seq<char>, Tree)>,
    name: Seq<char>,
    kind: Kind,
    optional: bool,
) -> Result<Option<Tree>, Failure> {
    match table_get(es, name) {
        None => if optional {
            Ok(None)
        } else {
            Err(Failure::MissingField(name))
        },
        Some(t) => if serves(kind, kind_of(t)) {
            Ok(Some(t))
        } else {
            Err(Failure::FieldTypeMismatch(name, kind, kind_of(t)))
        },
    }
}

pub open spec fn field_of(es: Seq<(Seq<char>, Tree)>, f: Field) -> Result<Option<Tree>, Failure> {
    field_result(es, f.name@, f.kind, f.optional)
}

pub open spec fn opt_tree(v: Option<Value>) -> Option<Tree> {
    match v {
        Some(v) => Some(v@),
        None => None,
    }
}

impl ConfigLoader {
    /// The file's table overlaid with the environment's variables, each a
    /// top-level string; a later variable of the same name wins.
    pub fn from_sources(file: Vec<(String, Value)>, environment: &Vec<(String, String)>) -> (r: ConfigLoader)
        ensures
            keys_unique(table_view(file@)) ==> keys_unique(r@),
            forall|k: Seq<char>|
                #[trigger] table_get(r@, k) == overlay_get(table_view(file@), env_view(environment@), k),
    {
        let ghost f = table_view(file@);
        let ghost e = env_view(environment@);
        let mut settings = file;
        let mut i: usize = 0;
        while i < environment.len()
            invariant
                i <= environment@.len(),
                e == env_view(environment@),
                keys_unique(f) ==> keys_unique(table_view(settings@)),
                forall|k: Seq<char>|
                    #[trigger] table_get(table_view(settings@), k) == overlay_get(f, e.take(i as int), k),
            decreases environment@.len() - i,
        {
            let key = environment[i].0.clone();
            let text = environment[i].1.clone();
            insert_entry(&mut settings, key, Value::Str(text));
            assert(e.take(i + 1).drop_last() =~= e.take(i as int));
            i = i + 1;
        }
        assert(e.take(i as int) =~= e);
        ConfigLoader { settings }
    }

    /// The top-level entries.
    pub fn settings(&self) -> (r: &Vec<(String, Value)>)
        ensures
            table_view(r@) == self@,
    {
        &self.settings
    }

    /// The string at `key`.
    pub fn get_string(&self, key: &str) -> (r: Result<String, ConfigError>)
        ensures
            match r {
                Ok(s) => string_result(self@, key@) == Ok::<Seq<char>, Failure>(s@),
                Err(e) => string_result(self@, key@) == Err::<Seq<char>, Failure>(e@),
            },
    {
        match lookup_path(&self.settings, key) {
            None => Err(ConfigError::NotFound(key.to_owned())),
            Some(Value::Str(s)) => Ok(s.clone()),
            Some(v) => Err(ConfigError::TypeMismatch(key.to_owned(), Kind::Str, v.kind())),
        }
    }

    /// The integer at `key`.
    pub fn get_int(&self, key: &str) -> (r: Result<i64, ConfigError>)
        ensures
            match r {
                Ok(i) => int_result(self@, key@) == Ok::<int, Failure>(i as int),
                Err(e) => int_result(self@, key@) == Err::<int, Failure>(e@),
            },
    {
        match lookup_path(&self.settings, key) {
            None => Err(ConfigError::NotFound(key.to_owned())),
            Some(Value::Int(i)) => Ok(*i),
            Some(v) => Err(ConfigError::TypeMismatch(key.to_owned(), Kind::Int, v.kind())),
        }
    }

    /// The number at `key`, integer or floating-point.
    pub fn get_number(&self, key: &str) -> (r: Result<Number, ConfigError>)
        ensures
            match r {
                Ok(n) => number_result(self@, key@) == Ok::<Number, Failure>(n),
                Err(e) => number_result(self@, key@) == Err::<Number, Failure>(e@),
            },
    {
        match lookup_path(&self.settings, key) {
            None => Err(ConfigError::NotFound(key.to_owned())),
            Some(Value::Int(i)) => Ok(Number::Int(*i)),
            Some(Value::Float(b)) => Ok(Number::Float(*b)),
            Some(v) => Err(ConfigError::TypeMismatch(key.to_owned(), Kind::Float, v.kind())),
        }
    }

    /// The items of the array at `key`, in order, as text: a string as
    /// itself, an integer in decimal, a boolean as `true` or `false`.
    pub fn get_vec(&self, key: &str) -> (r: Result<Vec<String>, ConfigError>)
        ensures
            match r {
                Ok(v) => strings_result(self@, key@) == Ok::<Seq<Seq<char>>, Failure>(
                    v@.map_values(|s: String| s@),
                ),
                Err(e) => strings_result(self@, key@) == Err::<Seq<Seq<char>>, Failure>(e@),
            },
    {
        match lookup_path(&self.settings, key) {
            None => Err(ConfigError::NotFound(key.to_owned())),
            Some(Value::Array(items)) => {
                proof {
                    lemma_array_model(*items);
                }
                let ghost ts = items@.map_values(|v: Value| v@);
                let mut out: Vec<String> = Vec::new();
                let mut i: usize = 0;
                while i < items.len()
                    invariant
                        i <= items@.len(),
                        ts == items@.map_values(|v: Value| v@),
                        lookup(self@, key@) == Some(Tree::Array(ts)),
                        out@.len() == i,
                        forall|j: int|
                            #![trigger ts[j]]
                            #![trigger out@[j]]
                            0 <= j < i ==> scalar_text(ts[j]) == Some(out@[j]@),
                    decreases items@.len() - i,
                {
                    assert(ts[i as int] == items@[i as int]@);
                    match scalar_to_text(&items[i]) {
                        Some(text) => {
                            out.push(text);
                        },
                        None => {
                            proof {
                                assert(is_first_textless(ts, i as int));
                                let c = choose|c: int| is_first_textless(ts, c);
                                assert(c == i) by {
                                    if c < i {
                                        assert(scalar_text(ts[c]) is Some);
                                    } else if i < c {
                                        assert(scalar_text(ts[i as int]) is Some);
                                    }
                                }
                            }
                            let k = items[i].kind();
                            return Err(ConfigError::TypeMismatch(key.to_owned(), Kind::Str, k));
                        },
                    }
                    i = i + 1;
                }
                assert(out@.map_values(|s: String| s@) =~= Seq::new(ts.len(), |i: int| scalar_text(ts[i])->Some_0));
                Ok(out)
            },
            Some(v) => Err(ConfigError::TypeMismatch(key.to_owned(), Kind::Array, v.kind())),
        }
    }

    /// An independent configuration holding a copy of the table at
    /// `level_key`, queried by paths relative to that table.
    pub fn get_sub_config(&self, level_key: &str) -> (r: Result<ConfigLoader, ConfigError>)
        ensures
            match r {
                Ok(c) => table_result(self@, level_key@) == Ok::<Seq<(Seq<char>, Tree)>, Failure>(c@),
                Err(e) => table_result(self@, level_key@) == Err::<Seq<(Seq<char>, Tree)>, Failure>(e@),
            },
    {
        match lookup_path(&self.settings, level_key) {
            None => Err(ConfigError::NotFound(level_key.to_owned())),
            Some(Value::Table(es)) => {
                proof {
                    lemma_table_model(*es);
                }
                Ok(ConfigLoader { settings: duplicate_entries(es) })
            },
            Some(v) => Err(ConfigError::TypeMismatch(level_key.to_owned(), Kind::Table, v.kind())),
        }
    }

    /// Reads a record of the given shape from the top-level keys: a field is
    /// matched by name, an absent optional field reads as `None`, and keys
    /// that no field names are ignored. The first field that fails gives the
    /// error.
    pub fn read_record(&self, fields: &Vec<Field>) -> (r: Result<Vec<Option<Value>>, ConfigError>)
        ensures
            match r {
                Ok(vals) => {
                    &&& vals@.len() == fields@.len()
                    &&& forall|i: int|
                        0 <= i < fields@.len() ==> field_of(self@, #[trigger] fields@[i]) == Ok::<Option<Tree>, Failure>(
                            opt_tree(vals@[i]),
                        )
                },
                Err(e) => exists|i: int|
                    0 <= i < fields@.len() && field_of(self@, #[trigger] fields@[i]) == Err::<Option<Tree>, Failure>(e@)
                        && forall|j: int| 0 <= j < i ==> field_of(self@, #[trigger] fields@[j]) is Ok,
            },
    {
        let mut out: Vec<Option<Value>> = Vec::new();
        let mut i: usize = 0;
        while i < fields.len()
            invariant
                i <= fields@.len(),
                out@.len() == i,
                forall|j: int|
                    0 <= j < i ==> field_of(self@, #[trigger] fields@[j]) == Ok::<Option<Tree>, Failure>(
                        opt_tree(out@[j]),
                    ),
            decreases fields@.len() - i,
        {
            let f = &fields[i];
            match find_entry(&self.settings, &f.name) {
                None => {
                    if f.optional {
                        out.push(None);
                    } else {
                        return Err(ConfigError::MissingField(f.name.clone()));
                    }
                },
                Some(v) => {
                    let k = v.kind();
                    let fits = k == f.kind || (f.kind == Kind::Float && k == Kind::Int);
                    if fits {
                        out.push(Some(v.duplicate()));
                    } else {
                        return Err(ConfigError::FieldTypeMismatch(f.name.clone(), f.kind, k));
                    }
                },
            }
            i = i + 1;
        }
        Ok(out)
    }
}

/// A key that both the file and the environment hold reads as the
/// environment's string.
pub proof fn lemma_environment_wins(
    file: Seq<(Seq<char>, Tree)>,
    env: Seq<(Seq<char>, Seq<char>)>,
    es: Seq<(Seq<char>, Tree)>,
    key: Seq<char>,
    file_value: Tree,
    env_value: Seq<char>,
)
    requires
        forall|k: Seq<char>| #[trigger] table_get(es, k) == overlay_get(file, env, k),
        forall|i: int| 0 <= i < key.len() ==> key[i] != '.',
        table_get(file, key) == Some(file_value),
        env_get(env, key) == Some(env_value),
    ensures
        string_result(es, key) == Ok::<Seq<char>, Failure>(env_value),
{
    lemma_lookup_plain(es, key);
    assert(table_get(es, key) == overlay_get(file, env, key));
}

/// An array of strings stored under a key reads back as the same strings in
/// the same order, whatever their number.
pub proof fn lemma_strings_round_trip(es: Seq<(Seq<char>, Tree)>, key: Seq<char>, items: Seq<Seq<char>>)
    requires
        forall|i: int| 0 <= i < key.len() ==> key[i] != '.',
        table_get(es, key) == Some(Tree::Array(items.map_values(|s: Seq<char>| Tree::Str(s)))),
    ensures
        strings_result(es, key) == Ok::<Seq<Seq<char>>, Failure>(items),
{
    lemma_lookup_plain(es, key);
    let ts = items.map_values(|s: Seq<char>| Tree::Str(s));
    assert forall|i: int| !is_first_textless(ts, i) by {
        if 0 <= i < ts.len() {
            assert(ts[i] is Str);
        }
    }
    assert(Seq::new(ts.len(), |i: int| scalar_text(ts[i])->Some_0) =~= items);
}

/// Querying `q` in the configuration extracted at `p` reads what `p.q`
/// reads in the whole one.
pub proof fn lemma_sub_config_scoping(
    es: Seq<(Seq<char>, Tree)>,
    p: Seq<char>,
    q: Seq<char>,
    sub: Seq<(Seq<char>, Tree)>,
)
    requires
        table_result(es, p) == Ok::<Seq<(Seq<char>, Tree)>, Failure>(sub),
    ensures
        lookup(sub, q) == lookup(es, p + seq!['.'] + q),
        string_result(sub, q) is Ok <==> string_result(es, p + seq!['.'] + q) is Ok,
        string_result(sub, q) is Ok ==> string_result(sub, q) == string_result(es, p + seq!['.'] + q),
{
    lemma_lookup_in_table(es, p, q, sub);
}

/// An optional field whose key is absent reads as absent, not as an error.
pub proof fn lemma_optional_field_absent(es: Seq<(Seq<char>, Tree)>, name: Seq<char>, kind: Kind)
    requires
        table_get(es, name) is None,
    ensures
        field_result(es, name, kind, true) == Ok::<Option<Tree>, Failure>(None),
{
}

} // verus!
