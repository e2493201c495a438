//! The start-up settings: read from TOML, completed, and checked before
//! anything runs. A setting that is missing or empty stops the program here.
use crate::text::{begins, blank, is_blank, starts_with};
use serde_json::Value;
use vstd::prelude::*;
use vstd::string::*;

verus! {

/// Where ACME files are kept if the settings do not say.
pub const DEFAULT_ACME_CACHE_DIR: &'static str = ".acme-cache";

/// The start-up settings.
#[derive(Debug, Clone)]
pub struct Config {
    /// DNS name that the certificate is for.
    pub domain: String,
    /// Secret shared with the game plugin (HMAC-SHA256).
    pub hmac_secret: String,
    /// Steam Web API key, where display names are looked up.
    pub steam_api_key: Option<String>,
    /// The one UDP port for voice.
    pub udp_port: u16,
    /// Whether whoever leaves the roster stops hearing at once.
    pub revoke_on_death: bool,
    /// Static whitelist. Empty: the roster alone decides.
    pub whitelist: Vec<String>,
    /// Contact registered with the certificate authority.
    pub acme_contact: Option<String>,
    /// Whether the staging directory of the authority is used.
    pub acme_staging: bool,
    /// Where certificates and account keys are kept.
    pub acme_cache_dir: String,
}

/// What a `Config` holds.
#[verifier::ext_equal]
pub struct ConfigView {
    pub domain: Seq<char>,
    pub hmac_secret: Seq<char>,
    pub steam_api_key: Option<Seq<char>>,
    pub udp_port: u16,
    pub revoke_on_death: bool,
    pub whitelist: Seq<Seq<char>>,
    pub acme_contact: Option<Seq<char>>,
    pub acme_staging: bool,
    pub acme_cache_dir: Seq<char>,
}

impl View for Config {
    type V = ConfigView;

    open spec fn view(&self) -> ConfigView {
        ConfigView {
            domain: self.domain@,
            hmac_secret: self.hmac_secret@,
            steam_api_key: self.steam_api_key.deep_view(),
            udp_port: self.udp_port,
            revoke_on_death: self.revoke_on_death,
            whitelist: self.whitelist.deep_view(),
            acme_contact: self.acme_contact.deep_view(),
            acme_staging: self.acme_staging,
            acme_cache_dir: self.acme_cache_dir@,
        }
    }
}

/// The names that a settings file may use.
#[derive(Debug, Clone, Copy, PartialEq, Eq, Structural)]
pub enum Key {
    Domain,
    HmacSecret,
    SteamApiKey,
    UdpPort,
    RevokeOnDeath,
    Whitelist,
    AcmeContact,
    AcmeStaging,
    AcmeCacheDir,
}

/// One value of a settings file.
#[derive(Debug)]
pub enum Setting {
    Text(String),
    Integer(i64),
    Flag(bool),
    /// An array: each item that is a text, `None` for any other.
    List(Vec<Option<String>>),
    /// A float, a date or a table.
    Other,
}

/// What a `Setting` holds.
#[verifier::ext_equal]
pub enum SettingView {
    Text(Seq<char>),
    Integer(i64),
    Flag(bool),
    List(Seq<Option<Seq<char>>>),
    Other,
}

impl DeepView for Setting {
    type V = SettingView;

    open spec fn deep_view(&self) -> SettingView {
        match self {
            Setting::Text(s) => SettingView::Text(s@),
            Setting::Integer(n) => SettingView::Integer(*n),
            Setting::Flag(b) => SettingView::Flag(*b),
            Setting::List(items) => SettingView::List(items.deep_view()),
            Setting::Other => SettingView::Other,
        }
    }
}

/// The top level of a settings file: names and values in the order of the text.
pub type Document = Seq<(Seq<char>, SettingView)>;

/// Why settings are refused.
#[derive(Debug)]
pub enum ConfigError {
    /// The text is not TOML, for the reason that the `toml` crate gives.
    Syntax(String),
    /// A setting has a value of a wrong kind, or out of range.
    IllTyped(Key),
    /// A setting that has no default is missing.
    Missing(Key),
    EmptyDomain,
    EmptySecret,
    ZeroUdpPort,
}

/// What `toml::from_str` reads in a text, or what it says is wrong with it.
pub uninterp spec fn toml_document(text: Seq<char>) -> Result<
    Seq<(Seq<char>, SettingView)>,
    Seq<char>,
>;

/// Calls `toml::from_str` for a map of JSON values, which hold whatever TOML
/// holds: a date is an object there, and a float without a JSON number is null.
/// Claimed of it: the names and values in the order of the text, or the message
/// of the error, depend on the text alone.
#[verifier::external_body]
fn parse_toml(text: &str) -> (r: Result<Vec<(String, Setting)>, String>)
    ensures
        r is Ok <==> toml_document(text@) is Ok,
        r matches Ok(entries) ==> entries.deep_view() == toml_document(text@)->Ok_0,
        r matches Err(message) ==> message@ == toml_document(text@)->Err_0,
{
    let table: serde_json::Map<String, Value> =
        toml::from_str(text).map_err(|e: toml::de::Error| e.to_string())?;
    let convert = |(name, value): (String, Value)| match value {
        Value::String(s) => (name, Setting::Text(s)),
        Value::Number(n) => (name, n.as_i64().map_or(Setting::Other, Setting::Integer)),
        Value::Bool(b) => (name, Setting::Flag(b)),
        Value::Array(a) => {
            (name, Setting::List(a.iter().map(|v| v.as_str().map(String::from)).collect()))
        },
        _ => (name, Setting::Other),
    };
    Ok(table.into_iter().map(convert).collect())
}

impl Key {
    /// The name as a settings file writes it.
    pub open spec fn text(self) -> Seq<char> {
        match self {
            Key::Domain => "domain"@,
            Key::HmacSecret => "hmac_secret"@,
            Key::SteamApiKey => "steam_api_key"@,
            Key::UdpPort => "udp_port"@,
            Key::RevokeOnDeath => "revoke_on_death"@,
            Key::Whitelist => "whitelist"@,
            Key::AcmeContact => "acme_contact"@,
            Key::AcmeStaging => "acme_staging"@,
            Key::AcmeCacheDir => "acme_cache_dir"@,
        }
    }

    /// The name as a settings file writes it.
    pub fn name(self) -> (r: &'static str)
        ensures
            r@ == self.text(),
    {
        match self {
            Key::Domain => "domain",
            Key::HmacSecret => "hmac_secret",
            Key::SteamApiKey => "steam_api_key",
            Key::UdpPort => "udp_port",
            Key::RevokeOnDeath => "revoke_on_death",
            Key::Whitelist => "whitelist",
            Key::AcmeContact => "acme_contact",
            Key::AcmeStaging => "acme_staging",
            Key::AcmeCacheDir => "acme_cache_dir",
        }
    }

    /// Whether a value is of the kind that this setting takes.
    pub open spec fn takes(self, value: SettingView) -> bool {
        match self {
            Key::Domain
            | Key::HmacSecret
            | Key::SteamApiKey
            | Key::AcmeContact
            | Key::AcmeCacheDir => value is Text,
            Key::UdpPort => value matches SettingView::Integer(n) && 0 <= n <= u16::MAX,
            Key::RevokeOnDeath | Key::AcmeStaging => value is Flag,
            Key::Whitelist => value matches SettingView::List(items) && forall|i: int|
                0 <= i < items.len() ==> (#[trigger] items[i]) is Some,
        }
    }
}

/// Whether entry `i` of a document bears the name `key`.
pub open spec fn names(doc: Document, i: int, key: Key) -> bool {
    doc[i].0 == key.text()
}

/// Whether entry `i` bears a known name with a value of a wrong kind.
pub open spec fn ill_typed(doc: Document, i: int, key: Key) -> bool {
    names(doc, i, key) && !key.takes(doc[i].1)
}

/// Whether every known name of a document has a value of its kind.
pub open spec fn well_typed(doc: Document) -> bool {
    forall|i: int, key: Key| 0 <= i < doc.len() ==> !#[trigger] ill_typed(doc, i, key)
}

/// The value of the first entry named `key`.
pub open spec fn lookup(doc: Document, key: Key) -> Option<SettingView>
    decreases doc.len(),
{
    if doc.len() == 0 {
        None
    } else if doc[0].0 == key.text() {
        Some(doc[0].1)
    } else {
        lookup(doc.drop_first(), key)
    }
}

/// The settings that a well-typed document spells out, with the defaults for the rest.
pub open spec fn completed(doc: Document) -> ConfigView {
    ConfigView {
        domain: lookup(doc, Key::Domain)->0->Text_0,
        hmac_secret: lookup(doc, Key::HmacSecret)->0->Text_0,
        steam_api_key: match lookup(doc, Key::SteamApiKey) {
            Some(v) => Some(v->Text_0),
            None => None,
        },
        udp_port: lookup(doc, Key::UdpPort)->0->Integer_0 as u16,
        revoke_on_death: match lookup(doc, Key::RevokeOnDeath) {
            Some(v) => v->Flag_0,
            None => true,
        },
        whitelist: match lookup(doc, Key::Whitelist) {
            Some(v) => Seq::new(v->List_0.len(), |i: int| v->List_0[i]->0),
            None => Seq::empty(),
        },
        acme_contact: match lookup(doc, Key::AcmeContact) {
            Some(v) => Some(v->Text_0),
            None => None,
        },
        acme_staging: match lookup(doc, Key::AcmeStaging) {
            Some(v) => v->Flag_0,
            None => false,
        },
        acme_cache_dir: match lookup(doc, Key::AcmeCacheDir) {
            Some(v) => v->Text_0,
            None => DEFAULT_ACME_CACHE_DIR@,
        },
    }
}

/// The settings with the secret of the environment in place of the file's, where there is one.
pub open spec fn with_secret(c: ConfigView, secret: Option<Seq<char>>) -> ConfigView {
    match secret {
        Some(s) => ConfigView { hmac_secret: s, ..c },
        None => c,
    }
}

/// What no type can say of settings.
pub open spec fn acceptable(c: ConfigView) -> bool {
    !blank(c.domain) && !blank(c.hmac_secret) && c.udp_port != 0
}

/// Whether settings are refused with `e` by the checks on their values.
pub open spec fn refused_with(c: ConfigView, e: ConfigError) -> bool {
    match e {
        ConfigError::EmptyDomain => blank(c.domain),
        ConfigError::EmptySecret => !blank(c.domain) && blank(c.hmac_secret),
        ConfigError::ZeroUdpPort => !blank(c.domain) && !blank(c.hmac_secret) && c.udp_port == 0,
        _ => false,
    }
}

/// Whether `key` is the first setting without a default that a document lacks.
pub open spec fn first_missing(doc: Document, key: Key) -> bool {
    match key {
        Key::Domain => lookup(doc, Key::Domain) is None,
        Key::HmacSecret => lookup(doc, Key::Domain) is Some && lookup(doc, Key::HmacSecret) is None,
        Key::UdpPort => lookup(doc, Key::Domain) is Some && lookup(doc, Key::HmacSecret) is Some
            && lookup(doc, Key::UdpPort) is None,
        _ => false,
    }
}

/// Whether no setting without a default is missing.
pub open spec fn complete(doc: Document) -> bool {
    lookup(doc, Key::Domain) is Some && lookup(doc, Key::HmacSecret) is Some && lookup(
        doc,
        Key::UdpPort,
    ) is Some
}

/// Whether a document together with the secret of the environment gives the
/// result `r`: a wrong kind of value is reported first, in the order of the
/// text, then a missing setting, then an unacceptable value.
pub open spec fn read_as(
    doc: Document,
    secret: Option<Seq<char>>,
    r: Result<Config, ConfigError>,
) -> bool {
    let c = with_secret(completed(doc), secret);
    match r {
        Ok(config) => well_typed(doc) && complete(doc) && acceptable(c) && config@ == c,
        Err(ConfigError::Syntax(_)) => false,
        Err(ConfigError::IllTyped(key)) => exists|i: int|
            0 <= i < doc.len() && #[trigger] ill_typed(doc, i, key) && well_typed(doc.take(i)),
        Err(ConfigError::Missing(key)) => well_typed(doc) && first_missing(doc, key),
        Err(e) => well_typed(doc) && complete(doc) && refused_with(c, e),
    }
}

/// The contacts to register: a mail address, with `mailto:` before it where
/// the settings leave that out.
pub open spec fn contacts(contact: Option<Seq<char>>) -> Seq<Seq<char>> {
    match contact {
        Some(c) => if begins(c, "mailto:"@) {
            seq![c]
        } else {
            seq!["mailto:"@ + c]
        },
        None => seq![],
    }
}

/// Whether whoever leaves the roster stops hearing, if the settings do not say.
pub fn default_true() -> (r: bool)
    ensures
        r,
{
    true
}

/// Where ACME files are kept, if the settings do not say.
pub fn default_acme_cache_dir() -> (r: String)
    ensures
        r@ == DEFAULT_ACME_CACHE_DIR@,
{
    DEFAULT_ACME_CACHE_DIR.to_owned()
}


/// No two settings share a name.
pub proof fn names_are_distinct(k1: Key, k2: Key)
    requires
        k1.text() == k2.text(),
    ensures
        k1 == k2,
{
    reveal_strlit("domain");
    reveal_strlit("hmac_secret");
    reveal_strlit("steam_api_key");
    reveal_strlit("udp_port");
    reveal_strlit("revoke_on_death");
    reveal_strlit("whitelist");
    reveal_strlit("acme_contact");
    reveal_strlit("acme_staging");
    reveal_strlit("acme_cache_dir");
    assert("domain"@.len() == 6);
    assert("hmac_secret"@.len() == 11);
    assert("steam_api_key"@.len() == 13);
    assert("udp_port"@.len() == 8);
    assert("revoke_on_death"@.len() == 15);
    assert("whitelist"@.len() == 9);
    assert("acme_contact"@.len() == 12);
    assert("acme_staging"@.len() == 12);
    assert("acme_cache_dir"@.len() == 14);
    assert("acme_contact"@[5] != "acme_staging"@[5]);
}

fn same(a: &String, b: &str) -> (r: bool)
    ensures
        r == (a@ == b@),
{
    *a == b.to_owned()
}

/// The setting that a name stands for.
fn key_named(name: &String) -> (r: Option<Key>)
    ensures
        match r {
            Some(key) => name@ == key.text(),
            None => forall|key: Key| name@ != #[trigger] key.text(),
        },
{
    if same(name, Key::Domain.name()) {
        Some(Key::Domain)
    } else if same(name, Key::HmacSecret.name()) {
        Some(Key::HmacSecret)
    } else if same(name, Key::SteamApiKey.name()) {
        Some(Key::SteamApiKey)
    } else if same(name, Key::UdpPort.name()) {
        Some(Key::UdpPort)
    } else if same(name, Key::RevokeOnDeath.name()) {
        Some(Key::RevokeOnDeath)
    } else if same(name, Key::Whitelist.name()) {
        Some(Key::Whitelist)
    } else if same(name, Key::AcmeContact.name()) {
        Some(Key::AcmeContact)
    } else if same(name, Key::AcmeStaging.name()) {
        Some(Key::AcmeStaging)
    } else if same(name, Key::AcmeCacheDir.name()) {
        Some(Key::AcmeCacheDir)
    } else {
        None
    }
}

/// Whether every item of an array is a text.
fn all_texts(items: &Vec<Option<String>>) -> (r: bool)
    ensures
        r == forall|i: int|
            0 <= i < items.deep_view().len() ==> (#[trigger] items.deep_view()[i]) is Some,
{
    let mut i: usize = 0;
    while i < items.len()
        invariant
            i <= items@.len(),
            forall|j: int| 0 <= j < i ==> (#[trigger] items.deep_view()[j]) is Some,
        decreases items@.len() - i,
    {
        if items[i].is_none() {
            assert(items.deep_view()[i as int] is None);
            return false;
        }
        i = i + 1;
    }
    true
}

fn takes(key: Key, value: &Setting) -> (r: bool)
    ensures
        r == key.takes(value.deep_view()),
{
    match (key, value) {
        (Key::UdpPort, Setting::Integer(n)) => 0 <= *n && *n <= 65535,
        (Key::UdpPort, _) => false,
        (Key::RevokeOnDeath, Setting::Flag(_)) => true,
        (Key::RevokeOnDeath, _) => false,
        (Key::AcmeStaging, Setting::Flag(_)) => true,
        (Key::AcmeStaging, _) => false,
        (Key::Whitelist, Setting::List(items)) => all_texts(items),
        (Key::Whitelist, _) => false,
        (_, Setting::Text(_)) => true,
        (_, _) => false,
    }
}

/// The first setting whose value is of a wrong kind.
fn first_ill_typed(entries: &Vec<(String, Setting)>) -> (r: Option<Key>)
    ensures
        match r {
            Some(key) => exists|i: int|
                0 <= i < entries.deep_view().len() && #[trigger] ill_typed(
                    entries.deep_view(),
                    i,
                    key,
                ) && well_typed(entries.deep_view().take(i)),
            None => well_typed(entries.deep_view()),
        },
{
    let ghost doc = entries.deep_view();
    let mut i: usize = 0;
    while i < entries.len()
        invariant
            i <= entries@.len(),
            doc == entries.deep_view(),
            forall|j: int, key: Key| 0 <= j < i ==> !#[trigger] ill_typed(doc, j, key),
        decreases entries@.len() - i,
    {
        let (name, value) = &entries[i];
        let found = key_named(name);
        if let Some(key) = found {
            if !takes(key, value) {
                proof {
                    assert(ill_typed(doc, i as int, key));
                    assert forall|j: int, k: Key| 0 <= j < i implies !#[trigger] ill_typed(
                        doc.take(i as int),
                        j,
                        k,
                    ) by {
                        assert(!ill_typed(doc, j, k));
                    }
                }
                return Some(key);
            }
        }
        proof {
            assert forall|k: Key| !#[trigger] ill_typed(doc, i as int, k) by {
                if names(doc, i as int, k) {
                    assert(name@ == k.text());
                    names_are_distinct(found->0, k);
                }
            }
        }
        i = i + 1;
    }
    None
}

/// The value of the first entry named `key`.
fn find(entries: &Vec<(String, Setting)>, key: Key) -> (r: Option<usize>)
    ensures
        match r {
            Some(i) => i < entries@.len() && names(entries.deep_view(), i as int, key) && lookup(
                entries.deep_view(),
                key,
            ) == Some(entries@[i as int].1.deep_view()),
            None => lookup(entries.deep_view(), key) is None,
        },
{
    let ghost doc = entries.deep_view();
    let mut i: usize = 0;
    assert(doc.skip(0) =~= doc);
    while i < entries.len()
        invariant
            i <= entries@.len(),
            doc == entries.deep_view(),
            lookup(doc, key) == lookup(doc.skip(i as int), key),
        decreases entries@.len() - i,
    {
        assert(doc.skip(i as int)[0] == doc[i as int]);
        assert(doc.skip(i as int).drop_first() =~= doc.skip(i + 1));
        if same(&entries[i].0, key.name()) {
            return Some(i);
        }
        i = i + 1;
    }
    assert(doc.skip(i as int).len() == 0);
    None
}

/// The text of a setting.
fn find_text(entries: &Vec<(String, Setting)>, key: Key) -> (r: Option<String>)
    requires
        well_typed(entries.deep_view()),
        forall|v: SettingView| #[trigger] key.takes(v) ==> v is Text,
    ensures
        r.deep_view() == (match lookup(entries.deep_view(), key) {
            Some(v) => Some(v->Text_0),
            None => None,
        }),
        r is Some <==> lookup(entries.deep_view(), key) is Some,
{
    match find(entries, key) {
        Some(i) => {
            proof {
                assert(!ill_typed(entries.deep_view(), i as int, key));
                assert(key.takes(entries.deep_view()[i as int].1));
            }
            match &entries[i].1 {
                Setting::Text(s) => Some(s.clone()),
                _ => None,
            }
        },
        None => None,
    }
}

/// The value of a setting that is on or off.
fn find_flag(entries: &Vec<(String, Setting)>, key: Key) -> (r: Option<bool>)
    requires
        well_typed(entries.deep_view()),
        forall|v: SettingView| #[trigger] key.takes(v) ==> v is Flag,
    ensures
        r == (match lookup(entries.deep_view(), key) {
            Some(v) => Some(v->Flag_0),
            None => None,
        }),
{
    match find(entries, key) {
        Some(i) => {
            proof {
                assert(!ill_typed(entries.deep_view(), i as int, key));
                assert(key.takes(entries.deep_view()[i as int].1));
            }
            match &entries[i].1 {
                Setting::Flag(b) => Some(*b),
                _ => None,
            }
        },
        None => None,
    }
}

/// The UDP port.
fn find_port(entries: &Vec<(String, Setting)>) -> (r: Option<u16>)
    requires
        well_typed(entries.deep_view()),
    ensures
        r == (match lookup(entries.deep_view(), Key::UdpPort) {
            Some(v) => Some(v->Integer_0 as u16),
            None => None,
        }),
{
    match find(entries, Key::UdpPort) {
        Some(i) => {
            proof {
                assert(!ill_typed(entries.deep_view(), i as int, Key::UdpPort));
                assert(Key::UdpPort.takes(entries.deep_view()[i as int].1));
            }
            match &entries[i].1 {
                Setting::Integer(n) => Some(*n as u16),
                _ => None,
            }
        },
        None => None,
    }
}

/// The whitelist, empty where there is none.
fn find_whitelist(entries: &Vec<(String, Setting)>) -> (r: Vec<String>)
    requires
        well_typed(entries.deep_view()),
    ensures
        r.deep_view() == completed(entries.deep_view()).whitelist,
{
    let mut out: Vec<String> = Vec::new();
    if let Some(i) = find(entries, Key::Whitelist) {
        let ghost wanted = completed(entries.deep_view()).whitelist;
        proof {
            assert(!ill_typed(entries.deep_view(), i as int, Key::Whitelist));
            assert(Key::Whitelist.takes(entries.deep_view()[i as int].1));
        }
        if let Setting::List(items) = &entries[i].1 {
            let ghost view = items.deep_view();
            let mut j: usize = 0;
            while j < items.len()
                invariant
                    j <= items@.len(),
                    view == items.deep_view(),
                    forall|k: int| 0 <= k < view.len() ==> (#[trigger] view[k]) is Some,
                    out@.len() == j,
                    forall|k: int| 0 <= k < j ==> (#[trigger] out@[k])@ == view[k]->0,
                decreases items@.len() - j,
            {
                assert(view[j as int] is Some);
                if let Some(s) = &items[j] {
                    out.push(s.clone());
                }
                j = j + 1;
            }
        }
        assert(out.deep_view() =~= wanted);
    }
    assert(out.deep_view() =~= completed(entries.deep_view()).whitelist);
    out
}

impl Config {
    /// Reads the settings from TOML. `secret` is the value of the environment
    /// variable `PV_HMAC_SECRET`, which goes before the file's `hmac_secret`.
    pub fn from_toml_str(text: &str, secret: Option<String>) -> (r: Result<Config, ConfigError>)
        ensures
            match toml_document(text@) {
                Ok(doc) => read_as(doc, secret.deep_view(), r),
                Err(message) => r matches Err(ConfigError::Syntax(m)) && m@ == message,
            },
    {
        match parse_toml(text) {
            Ok(entries) => Config::from_entries(entries, secret),
            Err(e) => Err(ConfigError::Syntax(e)),
        }
    }

    /// Reads the settings from the entries of a document.
    pub fn from_entries(entries: Vec<(String, Setting)>, secret: Option<String>) -> (r: Result<
        Config,
        ConfigError,
    >)
        ensures
            read_as(entries.deep_view(), secret.deep_view(), r),
    {
        if let Some(key) = first_ill_typed(&entries) {
            return Err(ConfigError::IllTyped(key));
        }
        let domain = match find_text(&entries, Key::Domain) {
            Some(s) => s,
            None => return Err(ConfigError::Missing(Key::Domain)),
        };
        let file_secret = match find_text(&entries, Key::HmacSecret) {
            Some(s) => s,
            None => return Err(ConfigError::Missing(Key::HmacSecret)),
        };
        let udp_port: u16 = match find_port(&entries) {
            Some(n) => n,
            None => return Err(ConfigError::Missing(Key::UdpPort)),
        };
        let config = Config {
            domain,
            hmac_secret: match secret {
                Some(s) => s,
                None => file_secret,
            },
            steam_api_key: find_text(&entries, Key::SteamApiKey),
            udp_port,
            revoke_on_death: match find_flag(&entries, Key::RevokeOnDeath) {
                Some(b) => b,
                None => default_true(),
            },
            whitelist: find_whitelist(&entries),
            acme_contact: find_text(&entries, Key::AcmeContact),
            acme_staging: match find_flag(&entries, Key::AcmeStaging) {
                Some(b) => b,
                None => false,
            },
            acme_cache_dir: match find_text(&entries, Key::AcmeCacheDir) {
                Some(s) => s,
                None => default_acme_cache_dir(),
            },
        };
        assert(config@ =~= with_secret(completed(entries.deep_view()), secret.deep_view()));
        match config.validate() {
            Ok(()) => Ok(config),
            Err(e) => Err(e),
        }
    }

    /// Checks what no type can say. An empty text is an omission, not a value.
    pub fn validate(&self) -> (r: Result<(), ConfigError>)
        ensures
            match r {
                Ok(()) => acceptable(self@),
                Err(e) => refused_with(self@, e),
            },
    {
        if is_blank(self.domain.as_str()) {
            return Err(ConfigError::EmptyDomain);
        }
        if is_blank(self.hmac_secret.as_str()) {
            return Err(ConfigError::EmptySecret);
        }
        if self.udp_port == 0 {
            return Err(ConfigError::ZeroUdpPort);
        }
        Ok(())
    }

    /// The contacts to register with the certificate authority.
    pub fn acme_contacts(&self) -> (r: Vec<String>)
        ensures
            r.deep_view() == contacts(self@.acme_contact),
    {
        let mut out: Vec<String> = Vec::new();
        if let Some(c) = &self.acme_contact {
            if starts_with(c.as_str(), "mailto:") {
                out.push(c.clone());
            } else {
                out.push("mailto:".to_owned().concat(c.as_str()));
            }
        }
        assert(out.deep_view() =~= contacts(self@.acme_contact));
        out
    }
}

impl ConfigError {
    /// What an operator is told.
    pub open spec fn text(self) -> Seq<char> {
        match self {
            ConfigError::Syntax(message) => message@,
            ConfigError::IllTyped(key) => "invalid value for `"@ + key.text() + "`"@,
            ConfigError::Missing(key) => "missing field `"@ + key.text() + "`"@,
            ConfigError::EmptyDomain => "domain が空。証明書を取る DNS 名が要る"@,
            ConfigError::EmptySecret => "hmac_secret が空。config.toml か PV_HMAC_SECRET に設定する"@,
            ConfigError::ZeroUdpPort => "udp_port が 0。音声用の UDP ポートを 1 本決める"@,
        }
    }

    /// What an operator is told.
    pub fn message(&self) -> (r: String)
        ensures
            r@ == self.text(),
    {
        match self {
            ConfigError::Syntax(message) => message.clone(),
            ConfigError::IllTyped(key) => {
                "invalid value for `".to_owned().concat(key.name()).concat("`")
            },
            ConfigError::Missing(key) => {
                "missing field `".to_owned().concat(key.name()).concat("`")
            },
            ConfigError::EmptyDomain => "domain が空。証明書を取る DNS 名が要る".to_owned(),
            ConfigError::EmptySecret => {
                "hmac_secret が空。config.toml か PV_HMAC_SECRET に設定する".to_owned()
            },
            ConfigError::ZeroUdpPort => {
                "udp_port が 0。音声用の UDP ポートを 1 本決める".to_owned()
            },
        }
    }
}

/// Settings are accepted exactly if every known name has a value of its kind,
/// none of the three required settings is missing, and neither the domain nor
/// the secret in force is blank nor the port zero.
pub proof fn acceptance(doc: Document, secret: Option<Seq<char>>, r: Result<Config, ConfigError>)
    requires
        read_as(doc, secret, r),
    ensures
        r is Ok <==> well_typed(doc) && complete(doc) && acceptable(
            with_secret(completed(doc), secret),
        ),
{
    if let Err(ConfigError::IllTyped(key)) = r {
        let i = choose|i: int|
            0 <= i < doc.len() && #[trigger] ill_typed(doc, i, key) && well_typed(doc.take(i));
        assert(ill_typed(doc, i, key));
    }
}

/// One document and one environment give one result: two readings both fail or
/// both succeed, a success twice gives the same settings.
pub proof fn reading_is_deterministic(
    doc: Document,
    secret: Option<Seq<char>>,
    r1: Result<Config, ConfigError>,
    r2: Result<Config, ConfigError>,
)
    requires
        read_as(doc, secret, r1),
        read_as(doc, secret, r2),
    ensures
        r1 is Ok <==> r2 is Ok,
        r1 is Ok ==> r1->Ok_0@ == r2->Ok_0@,
        r1 is Err ==> r1->Err_0 == r2->Err_0,
{
    acceptance(doc, secret, r1);
    acceptance(doc, secret, r2);
    if r1 is Err && r1->Err_0 is IllTyped {
        let k1 = r1->Err_0->IllTyped_0;
        let i1 = choose|i: int|
            0 <= i < doc.len() && #[trigger] ill_typed(doc, i, k1) && well_typed(doc.take(i));
        assert(ill_typed(doc, i1, k1));
        let k2 = r2->Err_0->IllTyped_0;
        let i2 = choose|i: int|
            0 <= i < doc.len() && #[trigger] ill_typed(doc, i, k2) && well_typed(doc.take(i));
        assert(ill_typed(doc, i2, k2));
        if i1 < i2 {
            assert(ill_typed(doc.take(i2), i1, k1));
        } else if i2 < i1 {
            assert(ill_typed(doc.take(i1), i2, k2));
        } else {
            names_are_distinct(k1, k2);
        }
    } else if r2 is Err && r2->Err_0 is IllTyped {
        let k2 = r2->Err_0->IllTyped_0;
        let i2 = choose|i: int|
            0 <= i < doc.len() && #[trigger] ill_typed(doc, i, k2) && well_typed(doc.take(i));
        assert(ill_typed(doc, i2, k2));
    }
}

/// A secret in the environment goes before the one in the file, which may then be empty.
pub proof fn environment_secret_wins(
    doc: Document,
    secret: Seq<char>,
    r: Result<Config, ConfigError>,
)
    requires
        read_as(doc, Some(secret), r),
    ensures
        r matches Ok(config) ==> config@.hmac_secret == secret,
        well_typed(doc) && complete(doc) && !blank(completed(doc).domain) && !blank(secret)
            && completed(doc).udp_port != 0 ==> r is Ok,
{
    acceptance(doc, Some(secret), r);
}

/// A setting that is not spelled out has its default.
pub proof fn defaults_fill_gaps(doc: Document, secret: Option<Seq<char>>, config: Config)
    requires
        read_as(doc, secret, Ok(config)),
    ensures
        lookup(doc, Key::SteamApiKey) is None ==> config@.steam_api_key is None,
        lookup(doc, Key::RevokeOnDeath) is None ==> config@.revoke_on_death,
        lookup(doc, Key::Whitelist) is None ==> config@.whitelist.len() == 0,
        lookup(doc, Key::AcmeContact) is None ==> config@.acme_contact is None,
        lookup(doc, Key::AcmeStaging) is None ==> !config@.acme_staging,
        lookup(doc, Key::AcmeCacheDir) is None ==> config@.acme_cache_dir == ".acme-cache"@,
{
}

/// A lookup passes over an entry of another name.
proof fn lookup_without(doc: Document, at: int, key: Key)
    requires
        0 <= at < doc.len(),
        doc[at].0 != key.text(),
    ensures
        lookup(doc, key) == lookup(doc.remove(at), key),
    decreases doc.len(),
{
    if at == 0 {
        assert(doc.remove(0) =~= doc.drop_first());
    } else {
        assert(doc.remove(at)[0] == doc[0]);
        assert(doc.remove(at).drop_first() =~= doc.drop_first().remove(at - 1));
        if doc[0].0 != key.text() {
            lookup_without(doc.drop_first(), at - 1, key);
        }
    }
}

/// An entry with an unknown name changes nothing: a misspelt name leaves its
/// setting missing.
pub proof fn unknown_names_are_ignored(
    doc: Document,
    at: int,
    secret: Option<Seq<char>>,
    r: Result<Config, ConfigError>,
)
    requires
        0 <= at < doc.len(),
        forall|key: Key| doc[at].0 != #[trigger] key.text(),
        read_as(doc.remove(at), secret, r),
    ensures
        read_as(doc, secret, r),
{
    let rest = doc.remove(at);
    assert forall|key: Key| #[trigger] lookup(doc, key) == lookup(rest, key) by {
        assert(doc[at].0 != key.text());
        lookup_without(doc, at, key);
    }
    assert(completed(doc) =~= completed(rest));
    assert forall|i: int, key: Key| 0 <= i < doc.len() && i != at implies #[trigger] ill_typed(
        doc,
        i,
        key,
    ) == ill_typed(rest, if i < at { i } else { i - 1 }, key) by {}
    assert forall|key: Key| !#[trigger] ill_typed(doc, at, key) by {
        assert(doc[at].0 != key.text());
    }
    if well_typed(rest) {
        assert(well_typed(doc));
    }
    if let Err(ConfigError::IllTyped(key)) = r {
        let i = choose|i: int|
            0 <= i < rest.len() && #[trigger] ill_typed(rest, i, key) && well_typed(rest.take(i));
        let j = if i < at {
            i
        } else {
            i + 1
        };
        assert(doc[j] == rest[i]);
        assert(ill_typed(doc, j, key));
        assert forall|n: int, k: Key| 0 <= n < j implies !#[trigger] ill_typed(
            doc.take(j),
            n,
            k,
        ) by {
            assert(doc.take(j)[n] == doc[n]);
            if n == at {
                assert(!ill_typed(doc, at, k));
            } else {
                let m = if n < at {
                    n
                } else {
                    n - 1
                };
                assert(rest.take(i)[m] == doc[n]);
                assert(!ill_typed(rest.take(i), m, k));
            }
        }
    }
}

/// Every contact is one by mail, which is said once: one that says so is kept
/// as it is, and before any other it is put.
pub proof fn contacts_are_by_mail(contact: Seq<char>)
    ensures
        contacts(Some(contact)).len() == 1,
        begins(contacts(Some(contact))[0], "mailto:"@),
        begins(contact, "mailto:"@) ==> contacts(Some(contact))[0] == contact,
        !begins(contact, "mailto:"@) ==> contacts(Some(contact))[0] == "mailto:"@ + contact,
        contacts(Some(contacts(Some(contact))[0])) == contacts(Some(contact)),
{
    let whole = "mailto:"@ + contact;
    assert(whole.take("mailto:"@.len() as int) =~= "mailto:"@);
}

/// Whether entry `i` is the first of a name in a document.
pub open spec fn first_of(doc: Document, i: int, name: Seq<char>) -> bool {
    &&& 0 <= i < doc.len()
    &&& doc[i].0 == name
    &&& forall|m: int| 0 <= m < i ==> (#[trigger] doc[m]).0 != name
}

/// Whether no entry of a document has a name.
pub open spec fn unnamed(doc: Document, name: Seq<char>) -> bool {
    forall|m: int| 0 <= m < doc.len() ==> (#[trigger] doc[m]).0 != name
}

/// Whether a value is of the kind that goes with its name: a text, a port
/// number, a flag, or a list of texts. Any value goes with an unknown name.
pub open spec fn right_kind(entry: (Seq<char>, SettingView)) -> bool {
    let (name, v) = entry;
    &&& (name == "domain"@ || name == "hmac_secret"@ || name == "steam_api_key"@ || name
        == "acme_contact"@ || name == "acme_cache_dir"@) ==> v is Text
    &&& name == "udp_port"@ ==> (v matches SettingView::Integer(n) && 0 <= n <= 65535)
    &&& (name == "revoke_on_death"@ || name == "acme_staging"@) ==> v is Flag
    &&& name == "whitelist"@ ==> (v matches SettingView::List(items) && forall|i: int|
        0 <= i < items.len() ==> (#[trigger] items[i]) is Some)
}

proof fn lookup_by_entry(doc: Document, key: Key, i: int)
    ensures
        first_of(doc, i, key.text()) ==> lookup(doc, key) == Some(doc[i].1),
        unnamed(doc, key.text()) <==> lookup(doc, key) is None,
    decreases doc.len(),
{
    if doc.len() > 0 {
        let rest = doc.drop_first();
        if doc[0].0 != key.text() {
            lookup_by_entry(rest, key, i - 1);
            if first_of(doc, i, key.text()) {
                assert forall|m: int| 0 <= m < i - 1 implies (#[trigger] rest[m]).0 != key.text() by {
                    assert(doc[m + 1].0 != key.text());
                }
                assert(rest[i - 1] == doc[i]);
            }
            if unnamed(doc, key.text()) {
                assert forall|m: int| 0 <= m < rest.len() implies (#[trigger] rest[m]).0
                    != key.text() by {
                    assert(doc[m + 1].0 != key.text());
                }
            }
            if unnamed(rest, key.text()) {
                assert forall|m: int| 0 <= m < doc.len() implies (#[trigger] doc[m]).0
                    != key.text() by {
                    if m > 0 {
                        assert(rest[m - 1].0 != key.text());
                    }
                }
            }
        } else if i > 0 && first_of(doc, i, key.text()) {
            assert(doc[0].0 != key.text());
        }
    }
}

proof fn lookups_by_entry(doc: Document, i: int)
    ensures
        forall|key: Key|
            first_of(doc, i, #[trigger] key.text()) ==> lookup(doc, key) == Some(doc[i].1),
        forall|key: Key| unnamed(doc, #[trigger] key.text()) <==> lookup(doc, key) is None,
{
    assert forall|key: Key|
        first_of(doc, i, #[trigger] key.text()) implies lookup(doc, key) == Some(doc[i].1) by {
        lookup_by_entry(doc, key, i);
    }
    assert forall|key: Key| unnamed(doc, #[trigger] key.text()) <==> lookup(doc, key) is None by {
        lookup_by_entry(doc, key, i);
    }
}

proof fn kinds_by_entry(doc: Document, i: int)
    requires
        0 <= i < doc.len(),
    ensures
        right_kind(doc[i]) <==> forall|key: Key| !#[trigger] ill_typed(doc, i, key),
{
    if !right_kind(doc[i]) {
        assert(ill_typed(doc, i, Key::Domain) || ill_typed(doc, i, Key::HmacSecret) || ill_typed(
            doc,
            i,
            Key::SteamApiKey,
        ) || ill_typed(doc, i, Key::UdpPort) || ill_typed(doc, i, Key::RevokeOnDeath) || ill_typed(
            doc,
            i,
            Key::Whitelist,
        ) || ill_typed(doc, i, Key::AcmeContact) || ill_typed(doc, i, Key::AcmeStaging)
            || ill_typed(doc, i, Key::AcmeCacheDir));
    }
}

proof fn well_typed_by_entry(doc: Document)
    ensures
        well_typed(doc) <==> forall|i: int| 0 <= i < doc.len() ==> right_kind(#[trigger] doc[i]),
{
    assert forall|i: int| 0 <= i < doc.len() implies (right_kind(#[trigger] doc[i])
        <==> forall|key: Key| !#[trigger] ill_typed(doc, i, key)) by {
        kinds_by_entry(doc, i);
    }
}

/// Each setting is what the first entry of its name says, the secret of the
/// environment before that of the file, and what no entry names has its
/// default.
pub proof fn settings_entry_by_entry(
    doc: Document,
    secret: Option<Seq<char>>,
    config: Config,
    i: int,
)
    requires
        read_as(doc, secret, Ok(config)),
    ensures
        first_of(doc, i, "domain"@) ==> doc[i].1 == SettingView::Text(config@.domain),
        secret matches Some(s) ==> config@.hmac_secret == s,
        secret is None && first_of(doc, i, "hmac_secret"@) ==> doc[i].1 == SettingView::Text(
            config@.hmac_secret,
        ),
        first_of(doc, i, "steam_api_key"@) ==> (config@.steam_api_key matches Some(k) && doc[i].1
            == SettingView::Text(k)),
        first_of(doc, i, "udp_port"@) ==> doc[i].1 == SettingView::Integer(config@.udp_port as i64),
        first_of(doc, i, "revoke_on_death"@) ==> doc[i].1 == SettingView::Flag(
            config@.revoke_on_death,
        ),
        first_of(doc, i, "whitelist"@) ==> (doc[i].1 matches SettingView::List(items) && items.len()
            == config@.whitelist.len() && forall|k: int|
            0 <= k < items.len() ==> #[trigger] items[k] == Some(config@.whitelist[k])),
        first_of(doc, i, "acme_contact"@) ==> (config@.acme_contact matches Some(c) && doc[i].1
            == SettingView::Text(c)),
        first_of(doc, i, "acme_staging"@) ==> doc[i].1 == SettingView::Flag(config@.acme_staging),
        first_of(doc, i, "acme_cache_dir"@) ==> doc[i].1 == SettingView::Text(
            config@.acme_cache_dir,
        ),
        unnamed(doc, "steam_api_key"@) ==> config@.steam_api_key is None,
        unnamed(doc, "revoke_on_death"@) ==> config@.revoke_on_death,
        unnamed(doc, "whitelist"@) ==> config@.whitelist.len() == 0,
        unnamed(doc, "acme_contact"@) ==> config@.acme_contact is None,
        unnamed(doc, "acme_staging"@) ==> !config@.acme_staging,
        unnamed(doc, "acme_cache_dir"@) ==> config@.acme_cache_dir == ".acme-cache"@,
{
    lookups_by_entry(doc, i);
    well_typed_by_entry(doc);
    if 0 <= i < doc.len() {
        assert(right_kind(doc[i]));
        assert(Key::Domain.text() == "domain"@);
        assert(Key::HmacSecret.text() == "hmac_secret"@);
        assert(Key::SteamApiKey.text() == "steam_api_key"@);
        assert(Key::UdpPort.text() == "udp_port"@);
        assert(Key::RevokeOnDeath.text() == "revoke_on_death"@);
        assert(Key::Whitelist.text() == "whitelist"@);
        assert(Key::AcmeContact.text() == "acme_contact"@);
        assert(Key::AcmeStaging.text() == "acme_staging"@);
        assert(Key::AcmeCacheDir.text() == "acme_cache_dir"@);
    }
    lookup_by_entry(doc, Key::SteamApiKey, i);
    lookup_by_entry(doc, Key::RevokeOnDeath, i);
    lookup_by_entry(doc, Key::Whitelist, i);
    lookup_by_entry(doc, Key::AcmeContact, i);
    lookup_by_entry(doc, Key::AcmeStaging, i);
    lookup_by_entry(doc, Key::AcmeCacheDir, i);
}

/// Settings are refused for the first value of a wrong kind in the text; if
/// there is none, for the first missing one of domain, secret and port; if none
/// is missing, for a domain or a secret in force of nothing but white space,
/// or for the port 0. All others are taken.
pub proof fn refusals_entry_by_entry(
    doc: Document,
    secret: Option<Seq<char>>,
    r: Result<Config, ConfigError>,
    d: int,
    h: int,
    u: int,
)
    requires
        read_as(doc, secret, r),
    ensures
        ({
            let right = forall|i: int| 0 <= i < doc.len() ==> right_kind(#[trigger] doc[i]);
            &&& r matches Err(ConfigError::IllTyped(key)) ==> exists|i: int|
                0 <= i < doc.len() && !right_kind(#[trigger] doc[i]) && doc[i].0 == key.text()
                    && forall|m: int| 0 <= m < i ==> right_kind(#[trigger] doc[m])
            &&& !right ==> (r matches Err(ConfigError::IllTyped(_)))
            &&& right ==> {
                &&& unnamed(doc, "domain"@) ==> r == Err::<Config, ConfigError>(
                    ConfigError::Missing(Key::Domain),
                )
                &&& !unnamed(doc, "domain"@) && unnamed(doc, "hmac_secret"@) ==> r == Err::<
                    Config,
                    ConfigError,
                >(ConfigError::Missing(Key::HmacSecret))
                &&& !unnamed(doc, "domain"@) && !unnamed(doc, "hmac_secret"@) && unnamed(
                    doc,
                    "udp_port"@,
                ) ==> r == Err::<Config, ConfigError>(ConfigError::Missing(Key::UdpPort))
                &&& first_of(doc, d, "domain"@) && first_of(doc, h, "hmac_secret"@) && first_of(
                    doc,
                    u,
                    "udp_port"@,
                ) ==> {
                    let domain = doc[d].1->Text_0;
                    let secret = match secret {
                        Some(s) => s,
                        None => doc[h].1->Text_0,
                    };
                    if blank(domain) {
                        r == Err::<Config, ConfigError>(ConfigError::EmptyDomain)
                    } else if blank(secret) {
                        r == Err::<Config, ConfigError>(ConfigError::EmptySecret)
                    } else if doc[u].1 == SettingView::Integer(0) {
                        r == Err::<Config, ConfigError>(ConfigError::ZeroUdpPort)
                    } else {
                        r is Ok
                    }
                }
            }
        }),
{
    well_typed_by_entry(doc);
    lookup_by_entry(doc, Key::Domain, d);
    lookup_by_entry(doc, Key::HmacSecret, h);
    lookup_by_entry(doc, Key::UdpPort, u);
    if let Err(ConfigError::IllTyped(key)) = r {
        let i = choose|i: int|
            0 <= i < doc.len() && #[trigger] ill_typed(doc, i, key) && well_typed(doc.take(i));
        kinds_by_entry(doc, i);
        well_typed_by_entry(doc.take(i));
        assert forall|m: int| 0 <= m < i implies right_kind(#[trigger] doc[m]) by {
            assert(doc.take(i)[m] == doc[m]);
        }
        assert(!right_kind(doc[i]));
    }
    if first_of(doc, u, "udp_port"@) && (forall|i: int|
        0 <= i < doc.len() ==> right_kind(#[trigger] doc[i])) {
        assert(right_kind(doc[u]));
    }
}

/// Two settings that differ anywhere are shown as different.
pub proof fn settings_are_shown_whole(a: Config, b: Config, k: int)
    requires
        a@ == b@,
    ensures
        a.domain@ == b.domain@,
        a.hmac_secret@ == b.hmac_secret@,
        a.steam_api_key is Some <==> b.steam_api_key is Some,
        a.steam_api_key matches Some(s) ==> (b.steam_api_key matches Some(t) && s@ == t@),
        a.udp_port == b.udp_port,
        a.revoke_on_death == b.revoke_on_death,
        a.whitelist@.len() == b.whitelist@.len(),
        0 <= k < a.whitelist@.len() ==> a.whitelist@[k]@ == b.whitelist@[k]@,
        a.acme_contact is Some <==> b.acme_contact is Some,
        a.acme_contact matches Some(s) ==> (b.acme_contact matches Some(t) && s@ == t@),
        a.acme_staging == b.acme_staging,
        a.acme_cache_dir@ == b.acme_cache_dir@,
{
    assert(a.whitelist.deep_view() == b.whitelist.deep_view());
    assert(a.whitelist.deep_view().len() == a.whitelist@.len() && b.whitelist.deep_view().len()
        == b.whitelist@.len());
    if 0 <= k < a.whitelist@.len() {
        assert(a.whitelist.deep_view()[k] == a.whitelist@[k]@);
        assert(b.whitelist.deep_view()[k] == b.whitelist@[k]@);
    }
}

/// What an operator is told names the setting that is wrong or missing, and
/// for an unacceptable value says which and what is needed.
pub proof fn refusals_say_why(key: Key, message: String)
    ensures
        ConfigError::Syntax(message).text() == message@,
        exists|a: Seq<char>, b: Seq<char>|
            ConfigError::IllTyped(key).text() == #[trigger] (a + key.text() + b),
        exists|a: Seq<char>, b: Seq<char>|
            ConfigError::Missing(key).text() == #[trigger] (a + key.text() + b) && a
                == "missing field `"@,
        ConfigError::EmptyDomain.text() == "domain が空。証明書を取る DNS 名が要る"@,
        ConfigError::EmptySecret.text()
            == "hmac_secret が空。config.toml か PV_HMAC_SECRET に設定する"@,
        ConfigError::ZeroUdpPort.text() == "udp_port が 0。音声用の UDP ポートを 1 本決める"@,
        Key::Domain.text() == "domain"@,
        Key::HmacSecret.text() == "hmac_secret"@,
        Key::SteamApiKey.text() == "steam_api_key"@,
        Key::UdpPort.text() == "udp_port"@,
        Key::RevokeOnDeath.text() == "revoke_on_death"@,
        Key::Whitelist.text() == "whitelist"@,
        Key::AcmeContact.text() == "acme_contact"@,
        Key::AcmeStaging.text() == "acme_staging"@,
        Key::AcmeCacheDir.text() == "acme_cache_dir"@,
{
    assert(ConfigError::IllTyped(key).text() == "invalid value for `"@ + key.text() + "`"@);
    assert(ConfigError::Missing(key).text() == "missing field `"@ + key.text() + "`"@);
}

} // verus!
