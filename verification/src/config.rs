//! What the user says about the tables.
use vstd::hash_map::StringHashMap;
use vstd::prelude::*;

verus! {

/// The user's comments.
pub struct TablesConfig {
    /// The comment on all the tables.
    pub comments: Option<String>,
    /// The comment on each table, by the table's key.
    pub table_comments: StringHashMap<String>,
}

/// The value of the last entry with this key.
pub open spec fn last_value(entries: Seq<(String, String)>, key: Seq<char>) -> Option<Seq<char>>
    decreases entries.len(),
{
    if entries.len() == 0 {
        None
    } else if entries.last().0@ == key {
        Some(entries.last().1@)
    } else {
        last_value(entries.drop_last(), key)
    }
}

impl TablesConfig {
    /// The comment on all the tables.
    pub open spec fn comment(&self) -> Option<Seq<char>> {
        match self.comments {
            Some(comment) => Some(comment@),
            None => None,
        }
    }

    /// The comment that is filed under a key.
    pub open spec fn comment_on(&self, key: Seq<char>) -> Option<Seq<char>> {
        if self.table_comments@.contains_key(key) {
            Some(self.table_comments@[key]@)
        } else {
            None
        }
    }

    /// Whether there are no comments.
    pub open spec fn is_blank(&self) -> bool {
        &&& self.comments is None
        &&& forall|key: Seq<char>| #[trigger] self.comment_on(key) is None
    }

    /// A configuration with these comments. Where two have the same key, the later one counts.
    pub fn new(comments: Option<String>, table_comments: Vec<(String, String)>) -> (config:
        TablesConfig)
        ensures
            config.comments == comments,
            forall|key: Seq<char>| #[trigger]
                config.comment_on(key) == last_value(table_comments@, key),
    {
        let mut config = TablesConfig { comments, table_comments: StringHashMap::new() };
        let mut i: usize = 0;
        while i < table_comments.len()
            invariant
                i <= table_comments@.len(),
                config.comments == comments,
                forall|key: Seq<char>| #[trigger]
                    config.comment_on(key) == last_value(table_comments@.take(i as int), key),
            decreases table_comments@.len() - i,
        {
            let ghost before = config;
            let key = table_comments[i].0.clone();
            let value = table_comments[i].1.clone();
            config.table_comments.insert(key, value);
            proof {
                let next = table_comments@.take(i + 1);
                assert(next.drop_last() =~= table_comments@.take(i as int));
                assert forall|key: Seq<char>| #[trigger]
                    config.comment_on(key) == last_value(next, key) by {
                    assert(before.comment_on(key) == last_value(
                        table_comments@.take(i as int),
                        key,
                    ));
                }
            }
            i += 1;
        }
        assert(table_comments@.take(i as int) =~= table_comments@);
        config
    }

    /// The comment that is filed under a key.
    pub fn get_comment(&self, key: &str) -> (comment: Option<&String>)
        ensures
            match comment {
                Some(comment) => self.comment_on(key@) == Some(comment@),
                None => self.comment_on(key@) is None,
            },
    {
        self.table_comments.get(key)
    }
}

impl Default for TablesConfig {
    fn default() -> (config: TablesConfig)
        ensures
            config.is_blank(),
    {
        TablesConfig { comments: None, table_comments: StringHashMap::new() }
    }
}

/// What came of an attempt to read the configuration file. `E` is for the reasons of a failure.
pub enum ConfigFile<E> {
    /// The file holds a configuration.
    Loaded(TablesConfig),
    /// The file is there, but does not hold a configuration, for the reason given.
    Invalid(E),
    /// There is no such file.
    NotFound,
    /// The file could not be opened, for the reason given.
    Unreadable(E),
}

impl<E> ConfigFile<E> {
    /// Whether this is the configuration to use: that of the file, or a blank one where there
    /// is no file.
    pub open spec fn gives(self, config: TablesConfig) -> bool {
        match self {
            ConfigFile::Loaded(loaded) => config == loaded,
            ConfigFile::NotFound => config.is_blank(),
            _ => false,
        }
    }

    /// Why the file, although it is there, is of no use.
    pub open spec fn refusal(self) -> Option<E> {
        match self {
            ConfigFile::Invalid(reason) => Some(reason),
            ConfigFile::Unreadable(reason) => Some(reason),
            _ => None,
        }
    }
}

/// The configuration to use: that of the file, or a blank one where there is no file. A file
/// that is there but of no use is an error.
pub fn load_config<E>(file: ConfigFile<E>) -> (result: Result<TablesConfig, E>)
    ensures
        match result {
            Ok(config) => file.gives(config) && file.refusal() is None,
            Err(reason) => file.refusal() == Some(reason),
        },
{
    match file {
        ConfigFile::Loaded(config) => Ok(config),
        ConfigFile::Invalid(reason) => Err(reason),
        ConfigFile::NotFound => Ok(TablesConfig::default()),
        ConfigFile::Unreadable(reason) => Err(reason),
    }
}

/// Under a key stands the value of the last entry that has the key, and nothing where none has.
pub proof fn lemma_last_value(entries: Seq<(String, String)>, key: Seq<char>)
    ensures
        last_value(entries, key) is None <==> forall|i: int|
            0 <= i < entries.len() ==> (#[trigger] entries[i]).0@ != key,
        forall|i: int|
            {
                &&& 0 <= i < entries.len()
                &&& (#[trigger] entries[i]).0@ == key
                &&& forall|j: int| i < j < entries.len() ==> (#[trigger] entries[j]).0@ != key
            } ==> last_value(entries, key) == Some(entries[i].1@),
    decreases entries.len(),
{
    if entries.len() > 0 {
        let fewer = entries.drop_last();
        let last = entries.len() - 1;
        lemma_last_value(fewer, key);
        assert(entries[last] == entries.last());
        if entries.last().0@ != key {
            assert forall|i: int|
                {
                    &&& 0 <= i < entries.len()
                    &&& (#[trigger] entries[i]).0@ == key
                    &&& forall|j: int| i < j < entries.len() ==> (#[trigger] entries[j]).0@ != key
                } implies last_value(entries, key) == Some(entries[i].1@) by {
                assert(fewer[i] == entries[i]);
                assert forall|j: int| i < j < fewer.len() implies (#[trigger] fewer[j]).0@
                    != key by {
                    assert(fewer[j] == entries[j]);
                }
            }
            if forall|i: int| 0 <= i < fewer.len() ==> (#[trigger] fewer[i]).0@ != key {
                assert forall|i: int| 0 <= i < entries.len() implies (#[trigger] entries[i]).0@
                    != key by {
                    if i < last {
                        assert(fewer[i] == entries[i]);
                    }
                }
            } else {
                let i = choose|i: int| 0 <= i < fewer.len() && (#[trigger] fewer[i]).0@ == key;
                assert(entries[i].0@ == key);
            }
        }
    }
}

/// The comments are those that were put into the configuration.
pub proof fn lemma_comments(config: &TablesConfig, key: Seq<char>)
    ensures
        config.comment() is Some <==> config.comments is Some,
        config.comments is Some ==> config.comment()->0 == config.comments->0@,
        config.comment_on(key) is Some <==> config.table_comments@.contains_key(key),
        config.comment_on(key) is Some ==> config.comment_on(key)->0
            == config.table_comments@[key]@,
        config.is_blank() ==> config.comments is None && !config.table_comments@.contains_key(key),
{
    assert(config.is_blank() ==> config.comment_on(key) is None);
}

/// A configuration that was read is used as it is; where there is no file, there are no comments;
/// and a file that is there but of no use gives no configuration, for just its reason.
pub proof fn lemma_config_file<E>(
    config: TablesConfig,
    other: TablesConfig,
    reason: E,
    key: Seq<char>,
)
    ensures
        ConfigFile::<E>::Loaded(other).gives(config) <==> config == other,
        ConfigFile::<E>::Loaded(other).refusal() is None,
        ConfigFile::<E>::NotFound.gives(config) ==> config.comments is None
            && !config.table_comments@.contains_key(key),
        ConfigFile::<E>::NotFound.refusal() is None,
        !ConfigFile::Invalid(reason).gives(config),
        ConfigFile::Invalid(reason).refusal() == Some(reason),
        !ConfigFile::Unreadable(reason).gives(config),
        ConfigFile::Unreadable(reason).refusal() == Some(reason),
{
    lemma_comments(&config, key);
}

} // verus!
