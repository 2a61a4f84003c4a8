//! The keys under which a pipeline keeps its values: one named key per kind
//! of value, each with an identifier of its own.
use vstd::prelude::*;
use crate::petri_net::IdGenerator;
use crate::user_data::{DefaultKey, Key};

verus! {
pub const PATH: &'static str = "path";
pub const EVENT_LOG: &'static str = "event_log";
pub const ACTIVITIES: &'static str = "activities";
pub const REPEAT_SETS: &'static str = "repeat_sets";
pub const TRACE_ACTIVITIES: &'static str = "trace_activities";
pub const PATTERNS: &'static str = "patterns";
pub const PETRI_NET: &'static str = "petri_net";
pub const ACTIVITIES_TO_LOGS: &'static str = "activities_to_logs";
pub const ACTIVITY_NAME: &'static str = "activity_name";
pub const HASHES_EVENT_LOG: &'static str = "hashes_event_log";
pub const NAMES_EVENT_LOG: &'static str = "names_event_log";
pub const TANDEM_ARRAY_LENGTH: &'static str = "tandem_array_length";
pub const ACTIVITY_LEVEL: &'static str = "activity_level";
pub const NARROW_ACTIVITIES: &'static str = "narrow_activities";
pub const EVENT_NAME: &'static str = "event_name";
pub const REGEX: &'static str = "regex";
pub const COLORS_EVENT_LOG: &'static str = "colors_event_log";
pub const COLORS_HOLDER: &'static str = "colors_holder";
pub const PATTERNS_DISCOVERY_STRATEGY: &'static str = "patterns_discovery_strategy";
pub const OUTPUT_STRING: &'static str = "output_string";
pub const EVENT_LOG_INFO: &'static str = "event_log_info";
pub const UNDERLYING_EVENTS_COUNT: &'static str = "underlying_events_count";
pub const EVENTS_COUNT: &'static str = "events_count";
pub const EVENT_CLASSES_REGEXES: &'static str = "event_classes_regexes";
pub const ADJUSTING_MODE: &'static str = "adjusting_mode";
pub const EVENT_CLASS_REGEX: &'static str = "event_class_regex";
pub const PATTERNS_KIND: &'static str = "patterns_kind";
pub const PIPELINE: &'static str = "pipeline";

/// A key of a pipeline value.
pub trait ContextKey {
    spec fn spec_key(&self) -> (Seq<char>, u64);

    fn key(&self) -> (r: &DefaultKey)
        ensures
            r@ == self.spec_key(),
    ;
}

/// A named key of a pipeline value.
pub struct DefaultContextKey {
    key: DefaultKey,
}

impl View for DefaultContextKey {
    type V = (Seq<char>, u64);

    closed spec fn view(&self) -> (Seq<char>, u64) {
        self.key@
    }
}

impl DefaultContextKey {
    /// A key named `name` whose identifier is the next one of `ids`.
    pub fn new(name: &str, ids: &mut IdGenerator) -> (r: Self)
        ensures
            r@ == (name@, old(ids)@),
            final(ids)@ == if old(ids)@ < u64::MAX { (old(ids)@ + 1) as u64 } else { 0 },
    {
        DefaultContextKey { key: DefaultKey::new(name.to_string(), ids) }
    }

    pub fn key(&self) -> (r: &DefaultKey)
        ensures
            r@ == self@,
    {
        &self.key
    }
}

impl ContextKey for DefaultContextKey {
    open spec fn spec_key(&self) -> (Seq<char>, u64) {
        self@
    }

    fn key(&self) -> (r: &DefaultKey) {
        &self.key
    }
}

/// The names of the keys, in the order of their identifiers.
pub open spec fn key_names() -> Seq<Seq<char>> {
    seq![
        PATH@,
        EVENT_LOG@,
        ACTIVITIES@,
        REPEAT_SETS@,
        TRACE_ACTIVITIES@,
        PATTERNS@,
        PETRI_NET@,
        ACTIVITIES_TO_LOGS@,
        ACTIVITY_NAME@,
        HASHES_EVENT_LOG@,
        NAMES_EVENT_LOG@,
        TANDEM_ARRAY_LENGTH@,
        ACTIVITY_LEVEL@,
        NARROW_ACTIVITIES@,
        EVENT_NAME@,
        REGEX@,
        COLORS_EVENT_LOG@,
        COLORS_HOLDER@,
        PATTERNS_DISCOVERY_STRATEGY@,
        OUTPUT_STRING@,
        EVENT_LOG_INFO@,
        UNDERLYING_EVENTS_COUNT@,
        EVENTS_COUNT@,
        EVENT_CLASSES_REGEXES@,
        ADJUSTING_MODE@,
        EVENT_CLASS_REGEX@,
        PATTERNS_KIND@,
        PIPELINE@,
    ]
}

/// All the keys of a pipeline; the key at position `i` is named
/// `key_names()[i]` and has identifier `i`.
pub struct ContextKeys {
    keys: Vec<DefaultContextKey>,
}

impl View for ContextKeys {
    type V = Seq<(Seq<char>, u64)>;

    closed spec fn view(&self) -> Seq<(Seq<char>, u64)> {
        self.keys@.map_values(|k: DefaultContextKey| k@)
    }
}

impl ContextKeys {
    pub open spec fn wf(&self) -> bool {
        &&& self@.len() == key_names().len()
        &&& forall|i: int| 0 <= i < self@.len() ==> #[trigger] self@[i] == (key_names()[i], i as u64)
    }

    /// Every key, each with a fresh identifier.
    pub fn new() -> (r: Self)
        ensures
            r.wf(),
    {
        let mut ids = IdGenerator::new();
        let mut keys: Vec<DefaultContextKey> = Vec::new();
        keys.push(DefaultContextKey::new(PATH, &mut ids));
        keys.push(DefaultContextKey::new(EVENT_LOG, &mut ids));
        keys.push(DefaultContextKey::new(ACTIVITIES, &mut ids));
        keys.push(DefaultContextKey::new(REPEAT_SETS, &mut ids));
        keys.push(DefaultContextKey::new(TRACE_ACTIVITIES, &mut ids));
        keys.push(DefaultContextKey::new(PATTERNS, &mut ids));
        keys.push(DefaultContextKey::new(PETRI_NET, &mut ids));
        keys.push(DefaultContextKey::new(ACTIVITIES_TO_LOGS, &mut ids));
        keys.push(DefaultContextKey::new(ACTIVITY_NAME, &mut ids));
        keys.push(DefaultContextKey::new(HASHES_EVENT_LOG, &mut ids));
        keys.push(DefaultContextKey::new(NAMES_EVENT_LOG, &mut ids));
        keys.push(DefaultContextKey::new(TANDEM_ARRAY_LENGTH, &mut ids));
        keys.push(DefaultContextKey::new(ACTIVITY_LEVEL, &mut ids));
        keys.push(DefaultContextKey::new(NARROW_ACTIVITIES, &mut ids));
        keys.push(DefaultContextKey::new(EVENT_NAME, &mut ids));
        keys.push(DefaultContextKey::new(REGEX, &mut ids));
        keys.push(DefaultContextKey::new(COLORS_EVENT_LOG, &mut ids));
        keys.push(DefaultContextKey::new(COLORS_HOLDER, &mut ids));
        keys.push(DefaultContextKey::new(PATTERNS_DISCOVERY_STRATEGY, &mut ids));
        keys.push(DefaultContextKey::new(OUTPUT_STRING, &mut ids));
        keys.push(DefaultContextKey::new(EVENT_LOG_INFO, &mut ids));
        keys.push(DefaultContextKey::new(UNDERLYING_EVENTS_COUNT, &mut ids));
        keys.push(DefaultContextKey::new(EVENTS_COUNT, &mut ids));
        keys.push(DefaultContextKey::new(EVENT_CLASSES_REGEXES, &mut ids));
        keys.push(DefaultContextKey::new(ADJUSTING_MODE, &mut ids));
        keys.push(DefaultContextKey::new(EVENT_CLASS_REGEX, &mut ids));
        keys.push(DefaultContextKey::new(PATTERNS_KIND, &mut ids));
        keys.push(DefaultContextKey::new(PIPELINE, &mut ids));
        let r = ContextKeys { keys };
        assert(r@ =~= seq![
            (PATH@, 0u64),
            (EVENT_LOG@, 1u64),
            (ACTIVITIES@, 2u64),
            (REPEAT_SETS@, 3u64),
            (TRACE_ACTIVITIES@, 4u64),
            (PATTERNS@, 5u64),
            (PETRI_NET@, 6u64),
            (ACTIVITIES_TO_LOGS@, 7u64),
            (ACTIVITY_NAME@, 8u64),
            (HASHES_EVENT_LOG@, 9u64),
            (NAMES_EVENT_LOG@, 10u64),
            (TANDEM_ARRAY_LENGTH@, 11u64),
            (ACTIVITY_LEVEL@, 12u64),
            (NARROW_ACTIVITIES@, 13u64),
            (EVENT_NAME@, 14u64),
            (REGEX@, 15u64),
            (COLORS_EVENT_LOG@, 16u64),
            (COLORS_HOLDER@, 17u64),
            (PATTERNS_DISCOVERY_STRATEGY@, 18u64),
            (OUTPUT_STRING@, 19u64),
            (EVENT_LOG_INFO@, 20u64),
            (UNDERLYING_EVENTS_COUNT@, 21u64),
            (EVENTS_COUNT@, 22u64),
            (EVENT_CLASSES_REGEXES@, 23u64),
            (ADJUSTING_MODE@, 24u64),
            (EVENT_CLASS_REGEX@, 25u64),
            (PATTERNS_KIND@, 26u64),
            (PIPELINE@, 27u64),
        ]);
        r
    }

    /// The number of keys.
    pub fn len(&self) -> (r: usize)
        ensures
            r == self@.len(),
    {
        self.keys.len()
    }

    /// The key named `name`.
    pub fn find_key(&self, name: &str) -> (r: Option<&DefaultContextKey>)
        ensures
            match r {
                Some(k) => exists|i: int| 0 <= i < self@.len() && #[trigger] self@[i] == k@ && k@.0 == name@,
                None => forall|i: int| 0 <= i < self@.len() ==> (#[trigger] self@[i]).0 != name@,
            },
    {
        let mut i: usize = 0;
        while i < self.keys.len()
            invariant
                i <= self@.len(),
                self@.len() == self.keys@.len(),
                forall|k: int| 0 <= k < i ==> (#[trigger] self@[k]).0 != name@,
            decreases self.keys.len() - i,
        {
            let k = &self.keys[i];
            assert(self@[i as int] == k@);
            if crate::text::str_eq(k.key().name().as_str(), name) {
                return Some(k);
            }
            i = i + 1;
        }
        None
    }

    /// The key named `name`, found in the same way as by `find_key`.
    pub fn find_concrete_key(&self, name: &str) -> (r: Option<&DefaultContextKey>)
        ensures
            match r {
                Some(k) => exists|i: int| 0 <= i < self@.len() && #[trigger] self@[i] == k@ && k@.0 == name@,
                None => forall|i: int| 0 <= i < self@.len() ==> (#[trigger] self@[i]).0 != name@,
            },
    {
        self.find_key(name)
    }

    fn are_keys_equal<K: ContextKey>(first: &K, second: &DefaultContextKey) -> (r: bool)
        ensures
            r == (first.spec_key().1 == second@.1),
    {
        first.key().id() == second.key().id()
    }

    /// The key `path`.
    pub fn path(&self) -> (r: &DefaultContextKey)
        requires
            self.wf(),
        ensures
            r@ == (PATH@, 0u64),
    {
        assert(self@[0] == self.keys@[0]@);
        &self.keys[0]
    }

    /// Whether `key` is the key `path` (compared by identifier).
    pub fn is_path<K: ContextKey>(&self, key: &K) -> (r: bool)
        requires
            self.wf(),
        ensures
            r == (key.spec_key().1 == 0u64),
    {
        Self::are_keys_equal(key, self.path())
    }

    /// The key `event_log`.
    pub fn event_log(&self) -> (r: &DefaultContextKey)
        requires
            self.wf(),
        ensures
            r@ == (EVENT_LOG@, 1u64),
    {
        assert(self@[1] == self.keys@[1]@);
        &self.keys[1]
    }

    /// Whether `key` is the key `event_log` (compared by identifier).
    pub fn is_event_log<K: ContextKey>(&self, key: &K) -> (r: bool)
        requires
            self.wf(),
        ensures
            r == (key.spec_key().1 == 1u64),
    {
        Self::are_keys_equal(key, self.event_log())
    }

    /// The key `activities`.
    pub fn activities(&self) -> (r: &DefaultContextKey)
        requires
            self.wf(),
        ensures
            r@ == (ACTIVITIES@, 2u64),
    {
        assert(self@[2] == self.keys@[2]@);
        &self.keys[2]
    }

    /// Whether `key` is the key `activities` (compared by identifier).
    pub fn is_activities<K: ContextKey>(&self, key: &K) -> (r: bool)
        requires
            self.wf(),
        ensures
            r == (key.spec_key().1 == 2u64),
    {
        Self::are_keys_equal(key, self.activities())
    }

    /// The key `repeat_sets`.
    pub fn repeat_sets(&self) -> (r: &DefaultContextKey)
        requires
            self.wf(),
        ensures
            r@ == (REPEAT_SETS@, 3u64),
    {
        assert(self@[3] == self.keys@[3]@);
        &self.keys[3]
    }

    /// Whether `key` is the key `repeat_sets` (compared by identifier).
    pub fn is_repeat_sets<K: ContextKey>(&self, key: &K) -> (r: bool)
        requires
            self.wf(),
        ensures
            r == (key.spec_key().1 == 3u64),
    {
        Self::are_keys_equal(key, self.repeat_sets())
    }

    /// The key `trace_activities`.
    pub fn trace_activities(&self) -> (r: &DefaultContextKey)
        requires
            self.wf(),
        ensures
            r@ == (TRACE_ACTIVITIES@, 4u64),
    {
        assert(self@[4] == self.keys@[4]@);
        &self.keys[4]
    }

    /// Whether `key` is the key `trace_activities` (compared by identifier).
    pub fn is_trace_activities<K: ContextKey>(&self, key: &K) -> (r: bool)
        requires
            self.wf(),
        ensures
            r == (key.spec_key().1 == 4u64),
    {
        Self::are_keys_equal(key, self.trace_activities())
    }

    /// The key `patterns`.
    pub fn patterns(&self) -> (r: &DefaultContextKey)
        requires
            self.wf(),
        ensures
            r@ == (PATTERNS@, 5u64),
    {
        assert(self@[5] == self.keys@[5]@);
        &self.keys[5]
    }

    /// Whether `key` is the key `patterns` (compared by identifier).
    pub fn is_patterns<K: ContextKey>(&self, key: &K) -> (r: bool)
        requires
            self.wf(),
        ensures
            r == (key.spec_key().1 == 5u64),
    {
        Self::are_keys_equal(key, self.patterns())
    }

    /// The key `petri_net`.
    pub fn petri_net(&self) -> (r: &DefaultContextKey)
        requires
            self.wf(),
        ensures
            r@ == (PETRI_NET@, 6u64),
    {
        assert(self@[6] == self.keys@[6]@);
        &self.keys[6]
    }

    /// Whether `key` is the key `petri_net` (compared by identifier).
    pub fn is_petri_net<K: ContextKey>(&self, key: &K) -> (r: bool)
        requires
            self.wf(),
        ensures
            r == (key.spec_key().1 == 6u64),
    {
        Self::are_keys_equal(key, self.petri_net())
    }

    /// The key `activities_to_logs`.
    pub fn activities_to_logs(&self) -> (r: &DefaultContextKey)
        requires
            self.wf(),
        ensures
            r@ == (ACTIVITIES_TO_LOGS@, 7u64),
    {
        assert(self@[7] == self.keys@[7]@);
        &self.keys[7]
    }

    /// Whether `key` is the key `activities_to_logs` (compared by identifier).
    pub fn is_activities_to_logs<K: ContextKey>(&self, key: &K) -> (r: bool)
        requires
            self.wf(),
        ensures
            r == (key.spec_key().1 == 7u64),
    {
        Self::are_keys_equal(key, self.activities_to_logs())
    }

    /// The key `activity_name`.
    pub fn activity_name(&self) -> (r: &DefaultContextKey)
        requires
            self.wf(),
        ensures
            r@ == (ACTIVITY_NAME@, 8u64),
    {
        assert(self@[8] == self.keys@[8]@);
        &self.keys[8]
    }

    /// Whether `key` is the key `activity_name` (compared by identifier).
    pub fn is_activity_name<K: ContextKey>(&self, key: &K) -> (r: bool)
        requires
            self.wf(),
        ensures
            r == (key.spec_key().1 == 8u64),
    {
        Self::are_keys_equal(key, self.activity_name())
    }

    /// The key `hashes_event_log`.
    pub fn hashes_event_log(&self) -> (r: &DefaultContextKey)
        requires
            self.wf(),
        ensures
            r@ == (HASHES_EVENT_LOG@, 9u64),
    {
        assert(self@[9] == self.keys@[9]@);
        &self.keys[9]
    }

    /// Whether `key` is the key `hashes_event_log` (compared by identifier).
    pub fn is_hashes_event_log<K: ContextKey>(&self, key: &K) -> (r: bool)
        requires
            self.wf(),
        ensures
            r == (key.spec_key().1 == 9u64),
    {
        Self::are_keys_equal(key, self.hashes_event_log())
    }

    /// The key `names_event_log`.
    pub fn names_event_log(&self) -> (r: &DefaultContextKey)
        requires
            self.wf(),
        ensures
            r@ == (NAMES_EVENT_LOG@, 10u64),
    {
        assert(self@[10] == self.keys@[10]@);
        &self.keys[10]
    }

    /// Whether `key` is the key `names_event_log` (compared by identifier).
    pub fn is_names_event_log<K: ContextKey>(&self, key: &K) -> (r: bool)
        requires
            self.wf(),
        ensures
            r == (key.spec_key().1 == 10u64),
    {
        Self::are_keys_equal(key, self.names_event_log())
    }

    /// The key `tandem_array_length`.
    pub fn tandem_array_length(&self) -> (r: &DefaultContextKey)
        requires
            self.wf(),
        ensures
            r@ == (TANDEM_ARRAY_LENGTH@, 11u64),
    {
        assert(self@[11] == self.keys@[11]@);
        &self.keys[11]
    }

    /// Whether `key` is the key `tandem_array_length` (compared by identifier).
    pub fn is_tandem_array_length<K: ContextKey>(&self, key: &K) -> (r: bool)
        requires
            self.wf(),
        ensures
            r == (key.spec_key().1 == 11u64),
    {
        Self::are_keys_equal(key, self.tandem_array_length())
    }

    /// The key `activity_level`.
    pub fn activity_level(&self) -> (r: &DefaultContextKey)
        requires
            self.wf(),
        ensures
            r@ == (ACTIVITY_LEVEL@, 12u64),
    {
        assert(self@[12] == self.keys@[12]@);
        &self.keys[12]
    }

    /// Whether `key` is the key `activity_level` (compared by identifier).
    pub fn is_activity_level<K: ContextKey>(&self, key: &K) -> (r: bool)
        requires
            self.wf(),
        ensures
            r == (key.spec_key().1 == 12u64),
    {
        Self::are_keys_equal(key, self.activity_level())
    }

    /// The key `narrow_activities`.
    pub fn narrow_activities(&self) -> (r: &DefaultContextKey)
        requires
            self.wf(),
        ensures
            r@ == (NARROW_ACTIVITIES@, 13u64),
    {
        assert(self@[13] == self.keys@[13]@);
        &self.keys[13]
    }

    /// Whether `key` is the key `narrow_activities` (compared by identifier).
    pub fn is_narrow_activities<K: ContextKey>(&self, key: &K) -> (r: bool)
        requires
            self.wf(),
        ensures
            r == (key.spec_key().1 == 13u64),
    {
        Self::are_keys_equal(key, self.narrow_activities())
    }

    /// The key `event_name`.
    pub fn event_name(&self) -> (r: &DefaultContextKey)
        requires
            self.wf(),
        ensures
            r@ == (EVENT_NAME@, 14u64),
    {
        assert(self@[14] == self.keys@[14]@);
        &self.keys[14]
    }

    /// Whether `key` is the key `event_name` (compared by identifier).
    pub fn is_event_name<K: ContextKey>(&self, key: &K) -> (r: bool)
        requires
            self.wf(),
        ensures
            r == (key.spec_key().1 == 14u64),
    {
        Self::are_keys_equal(key, self.event_name())
    }

    /// The key `regex`.
    pub fn regex(&self) -> (r: &DefaultContextKey)
        requires
            self.wf(),
        ensures
            r@ == (REGEX@, 15u64),
    {
        assert(self@[15] == self.keys@[15]@);
        &self.keys[15]
    }

    /// Whether `key` is the key `regex` (compared by identifier).
    pub fn is_regex<K: ContextKey>(&self, key: &K) -> (r: bool)
        requires
            self.wf(),
        ensures
            r == (key.spec_key().1 == 15u64),
    {
        Self::are_keys_equal(key, self.regex())
    }

    /// The key `colors_event_log`.
    pub fn colors_event_log(&self) -> (r: &DefaultContextKey)
        requires
            self.wf(),
        ensures
            r@ == (COLORS_EVENT_LOG@, 16u64),
    {
        assert(self@[16] == self.keys@[16]@);
        &self.keys[16]
    }

    /// Whether `key` is the key `colors_event_log` (compared by identifier).
    pub fn is_colors_event_log<K: ContextKey>(&self, key: &K) -> (r: bool)
        requires
            self.wf(),
        ensures
            r == (key.spec_key().1 == 16u64),
    {
        Self::are_keys_equal(key, self.colors_event_log())
    }

    /// The key `colors_holder`.
    pub fn colors_holder(&self) -> (r: &DefaultContextKey)
        requires
            self.wf(),
        ensures
            r@ == (COLORS_HOLDER@, 17u64),
    {
        assert(self@[17] == self.keys@[17]@);
        &self.keys[17]
    }

    /// Whether `key` is the key `colors_holder` (compared by identifier).
    pub fn is_colors_holder<K: ContextKey>(&self, key: &K) -> (r: bool)
        requires
            self.wf(),
        ensures
            r == (key.spec_key().1 == 17u64),
    {
        Self::are_keys_equal(key, self.colors_holder())
    }

    /// The key `patterns_discovery_strategy`.
    pub fn patterns_discovery_strategy(&self) -> (r: &DefaultContextKey)
        requires
            self.wf(),
        ensures
            r@ == (PATTERNS_DISCOVERY_STRATEGY@, 18u64),
    {
        assert(self@[18] == self.keys@[18]@);
        &self.keys[18]
    }

    /// Whether `key` is the key `patterns_discovery_strategy` (compared by identifier).
    pub fn is_patterns_discovery_strategy<K: ContextKey>(&self, key: &K) -> (r: bool)
        requires
            self.wf(),
        ensures
            r == (key.spec_key().1 == 18u64),
    {
        Self::are_keys_equal(key, self.patterns_discovery_strategy())
    }

    /// The key `output_string`.
    pub fn output_string(&self) -> (r: &DefaultContextKey)
        requires
            self.wf(),
        ensures
            r@ == (OUTPUT_STRING@, 19u64),
    {
        assert(self@[19] == self.keys@[19]@);
        &self.keys[19]
    }

    /// Whether `key` is the key `output_string` (compared by identifier).
    pub fn is_output_string<K: ContextKey>(&self, key: &K) -> (r: bool)
        requires
            self.wf(),
        ensures
            r == (key.spec_key().1 == 19u64),
    {
        Self::are_keys_equal(key, self.output_string())
    }

    /// The key `event_log_info`.
    pub fn event_log_info(&self) -> (r: &DefaultContextKey)
        requires
            self.wf(),
        ensures
            r@ == (EVENT_LOG_INFO@, 20u64),
    {
        assert(self@[20] == self.keys@[20]@);
        &self.keys[20]
    }

    /// Whether `key` is the key `event_log_info` (compared by identifier).
    pub fn is_event_log_info<K: ContextKey>(&self, key: &K) -> (r: bool)
        requires
            self.wf(),
        ensures
            r == (key.spec_key().1 == 20u64),
    {
        Self::are_keys_equal(key, self.event_log_info())
    }

    /// The key `underlying_events_count`.
    pub fn underlying_events_count(&self) -> (r: &DefaultContextKey)
        requires
            self.wf(),
        ensures
            r@ == (UNDERLYING_EVENTS_COUNT@, 21u64),
    {
        assert(self@[21] == self.keys@[21]@);
        &self.keys[21]
    }

    /// Whether `key` is the key `underlying_events_count` (compared by identifier).
    pub fn is_underlying_events_count<K: ContextKey>(&self, key: &K) -> (r: bool)
        requires
            self.wf(),
        ensures
            r == (key.spec_key().1 == 21u64),
    {
        Self::are_keys_equal(key, self.underlying_events_count())
    }

    /// The key `events_count`.
    pub fn events_count(&self) -> (r: &DefaultContextKey)
        requires
            self.wf(),
        ensures
            r@ == (EVENTS_COUNT@, 22u64),
    {
        assert(self@[22] == self.keys@[22]@);
        &self.keys[22]
    }

    /// Whether `key` is the key `events_count` (compared by identifier).
    pub fn is_events_count<K: ContextKey>(&self, key: &K) -> (r: bool)
        requires
            self.wf(),
        ensures
            r == (key.spec_key().1 == 22u64),
    {
        Self::are_keys_equal(key, self.events_count())
    }

    /// The key `event_classes_regexes`.
    pub fn event_classes_regexes(&self) -> (r: &DefaultContextKey)
        requires
            self.wf(),
        ensures
            r@ == (EVENT_CLASSES_REGEXES@, 23u64),
    {
        assert(self@[23] == self.keys@[23]@);
        &self.keys[23]
    }

    /// Whether `key` is the key `event_classes_regexes` (compared by identifier).
    pub fn is_event_classes_regexes<K: ContextKey>(&self, key: &K) -> (r: bool)
        requires
            self.wf(),
        ensures
            r == (key.spec_key().1 == 23u64),
    {
        Self::are_keys_equal(key, self.event_classes_regexes())
    }

    /// The key `adjusting_mode`.
    pub fn adjusting_mode(&self) -> (r: &DefaultContextKey)
        requires
            self.wf(),
        ensures
            r@ == (ADJUSTING_MODE@, 24u64),
    {
        assert(self@[24] == self.keys@[24]@);
        &self.keys[24]
    }

    /// Whether `key` is the key `adjusting_mode` (compared by identifier).
    pub fn is_adjusting_mode<K: ContextKey>(&self, key: &K) -> (r: bool)
        requires
            self.wf(),
        ensures
            r == (key.spec_key().1 == 24u64),
    {
        Self::are_keys_equal(key, self.adjusting_mode())
    }

    /// The key `event_class_regex`.
    pub fn event_class_regex(&self) -> (r: &DefaultContextKey)
        requires
            self.wf(),
        ensures
            r@ == (EVENT_CLASS_REGEX@, 25u64),
    {
        assert(self@[25] == self.keys@[25]@);
        &self.keys[25]
    }

    /// Whether `key` is the key `event_class_regex` (compared by identifier).
    pub fn is_vent_class_regex<K: ContextKey>(&self, key: &K) -> (r: bool)
        requires
            self.wf(),
        ensures
            r == (key.spec_key().1 == 25u64),
    {
        Self::are_keys_equal(key, self.event_class_regex())
    }

    /// The key `patterns_kind`.
    pub fn patterns_kind(&self) -> (r: &DefaultContextKey)
        requires
            self.wf(),
        ensures
            r@ == (PATTERNS_KIND@, 26u64),
    {
        assert(self@[26] == self.keys@[26]@);
        &self.keys[26]
    }

    /// Whether `key` is the key `patterns_kind` (compared by identifier).
    pub fn is_patterns_kind<K: ContextKey>(&self, key: &K) -> (r: bool)
        requires
            self.wf(),
        ensures
            r == (key.spec_key().1 == 26u64),
    {
        Self::are_keys_equal(key, self.patterns_kind())
    }

    /// The key `pipeline`.
    pub fn pipeline(&self) -> (r: &DefaultContextKey)
        requires
            self.wf(),
        ensures
            r@ == (PIPELINE@, 27u64),
    {
        assert(self@[27] == self.keys@[27]@);
        &self.keys[27]
    }

    /// Whether `key` is the key `pipeline` (compared by identifier).
    pub fn is_pipeline<K: ContextKey>(&self, key: &K) -> (r: bool)
        requires
            self.wf(),
        ensures
            r == (key.spec_key().1 == 27u64),
    {
        Self::are_keys_equal(key, self.pipeline())
    }
}

} // verus!
