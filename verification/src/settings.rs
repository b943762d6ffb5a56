//! The settings of the daemon, and the file that keeps them.

use crate::cpuset::DEFAULT_CPUSET_NAME;
use crate::json::{
    add_field, at, bool_in, ended, field, json_parsed, json_pretty, no_fields, plain, str_in,
    unsigned_in, Json, JsonV,
};
use crate::text::{
    byte_len, bytes_below, chars_of, code, has_char, has_control, last_of, lemma_last_of, piece,
    rfind_char, string_of, text5, with_control,
};
use crate::tuning::{state_file, state_path, text_in, FileRead};
use vstd::prelude::*;

verus! {

/// The name of the settings file.
pub const SETTINGS_FILE_NAME: &'static str = "AppOpt.json";

/// The name of the file with the CPU rules, unless another one is set.
pub const RULE_FILE_NAME: &'static str = "applist.conf";

/// The settings of the daemon.
#[derive(Clone)]
pub struct Settings {
    pub web_enable: bool,
    pub mode: u8,
    pub check_interval: u64,
    pub cpuset_name: String,
    pub config_file: String,
}

/// What a `Settings` holds.
#[verifier::ext_equal]
pub struct SettingsV {
    pub web_enable: bool,
    pub mode: int,
    pub check_interval: int,
    pub cpuset_name: Seq<char>,
    pub config_file: Seq<char>,
}

impl View for Settings {
    type V = SettingsV;

    open spec fn view(&self) -> SettingsV {
        SettingsV {
            web_enable: self.web_enable,
            mode: self.mode as int,
            check_interval: self.check_interval as int,
            cpuset_name: self.cpuset_name@,
            config_file: self.config_file@,
        }
    }
}

/// Whether `s` can name a cpuset directory: neither empty nor as long as 64 bytes, without slashes,
/// spaces and control characters.
pub open spec fn name_fits(s: Seq<char>) -> bool {
    s.len() > 0 && byte_len(s) < 64 && !s.contains('/') && forall|i: int|
        0 <= i < s.len() ==> (#[trigger] s[i]) as int > 0x20
}

pub fn valid_name(s: &str) -> (r: bool)
    ensures
        r == name_fits(s@),
{
    let t = chars_of(s);
    let mut i: usize = 0;
    while i < t.len()
        invariant
            i <= t@.len(),
            t@ == s@,
            forall|k: int| 0 <= k < i ==> (#[trigger] t@[k]) as int > 0x20,
        decreases t@.len() - i,
    {
        let n: u32 = code(t[i]);
        if n <= 0x20 {
            assert(!(s@[i as int] as int > 0x20));
            return false;
        }
        i += 1;
    }
    t.len() > 0 && bytes_below(t.as_slice(), 64) && !has_char(t.as_slice(), '/')
}

/// Whether `s` can be the path of a file: neither empty nor as long as 256 bytes, without control
/// characters.
pub open spec fn path_fits(s: Seq<char>) -> bool {
    s.len() > 0 && byte_len(s) < 256 && !has_control(s)
}

pub fn valid_path(s: &str) -> (r: bool)
    ensures
        r == path_fits(s@),
{
    let t = chars_of(s);
    t.len() > 0 && bytes_below(t.as_slice(), 256) && !with_control(t.as_slice())
}

/// The settings without a file, where `dir` is what the environment names for state files.
pub open spec fn initial(dir: Option<Seq<char>>) -> SettingsV {
    SettingsV {
        web_enable: false,
        mode: 0,
        check_interval: 2,
        cpuset_name: DEFAULT_CPUSET_NAME@,
        config_file: state_path(dir, RULE_FILE_NAME@),
    }
}

pub open spec fn clamped(n: int, min: int, max: int) -> int {
    if n < min {
        min
    } else if n > max {
        max
    } else {
        n
    }
}

/// The settings that a document states; what it does not state, or states wrongly, is as in `d`.
pub open spec fn settings_of(v: JsonV, d: SettingsV) -> SettingsV {
    SettingsV {
        web_enable: match bool_in(at(v, "web_enable"@)) {
            Some(b) => b,
            None => d.web_enable,
        },
        mode: clamped(
            match unsigned_in(at(v, "mode"@)) {
                Some(n) => n,
                None => d.mode,
            },
            0,
            2,
        ),
        check_interval: clamped(
            match unsigned_in(at(v, "check_interval"@)) {
                Some(n) => n,
                None => d.check_interval,
            },
            1,
            3600,
        ),
        cpuset_name: match str_in(at(v, "cpuset_name"@)) {
            Some(s) => if name_fits(s) {
                s
            } else {
                d.cpuset_name
            },
            None => d.cpuset_name,
        },
        config_file: match str_in(at(v, "config_file"@)) {
            Some(s) => if path_fits(s) {
                s
            } else {
                d.config_file
            },
            None => d.config_file,
        },
    }
}

/// The document that states some settings.
pub open spec fn settings_json(s: SettingsV) -> JsonV {
    JsonV::Object(
        Map::<Seq<char>, JsonV>::empty().insert("web_enable"@, JsonV::Bool(s.web_enable)).insert(
            "mode"@,
            JsonV::Whole(s.mode),
        ).insert("check_interval"@, JsonV::Whole(s.check_interval)).insert(
            "cpuset_name"@,
            JsonV::Text(s.cpuset_name),
        ).insert("config_file"@, JsonV::Text(s.config_file)),
    )
}

/// The field `name` of a document, or null.
pub fn field_or_null<'a>(v: &'a Json, name: &str, null: &'a Json) -> (r: &'a Json)
    requires
        null@ is Null,
    ensures
        r@ == at(v@, name@),
{
    match v.get(name) {
        Some(j) => j,
        None => null,
    }
}

proof fn lemma_settings_plain(s: Settings)
    ensures
        plain(settings_json(s@), 127),
{
    let m = settings_json(s@)->Object_0;
    assert forall|k: Seq<char>| #[trigger] m.contains_key(k) implies plain(m[k], 126) by {
        assert(crate::tuning::leaf(m[k]));
    }
}

impl Settings {
    /// The settings without a file, where `dir` is what the environment names for state files.
    pub fn initial(dir: &Option<String>) -> (r: Settings)
        ensures
            r@ == initial(text_in(*dir)),
    {
        Settings {
            web_enable: false,
            mode: 0,
            check_interval: 2,
            cpuset_name: DEFAULT_CPUSET_NAME.to_owned(),
            config_file: state_file(RULE_FILE_NAME, dir),
        }
    }

    /// The settings that a document states; what it does not state, or states wrongly, is as in `d`.
    pub fn from_json(v: &Json, d: &Settings) -> (r: Settings)
        ensures
            r@ == settings_of(v@, d@),
    {
        let null = Json::Null;
        let web_enable = match field_or_null(v, "web_enable", &null).as_bool() {
            Some(b) => b,
            None => d.web_enable,
        };
        let wanted: u64 = match field_or_null(v, "mode", &null).as_u64() {
            Some(n) => n,
            None => d.mode as u64,
        };
        let mode: u8 = if wanted > 2 {
            2
        } else {
            wanted as u8
        };
        let interval: u64 = match field_or_null(v, "check_interval", &null).as_u64() {
            Some(n) => n,
            None => d.check_interval,
        };
        let check_interval: u64 = if interval < 1 {
            1
        } else if interval > 3600 {
            3600
        } else {
            interval
        };
        let cpuset_name = match field_or_null(v, "cpuset_name", &null).as_str() {
            Some(s) => if valid_name(s) {
                s.to_owned()
            } else {
                d.cpuset_name.clone()
            },
            None => d.cpuset_name.clone(),
        };
        let config_file = match field_or_null(v, "config_file", &null).as_str() {
            Some(s) => if valid_path(s) {
                s.to_owned()
            } else {
                d.config_file.clone()
            },
            None => d.config_file.clone(),
        };
        Settings { web_enable, mode, check_interval, cpuset_name, config_file }
    }

    /// The document that states the settings.
    pub fn to_value(&self) -> (r: Json)
        ensures
            r@ == settings_json(self@),
    {
        let mut fields = no_fields();
        add_field(&mut fields, "web_enable", Json::Bool(self.web_enable));
        add_field(&mut fields, "mode", Json::Unsigned(self.mode as u64));
        add_field(&mut fields, "check_interval", Json::Unsigned(self.check_interval));
        add_field(&mut fields, "cpuset_name", Json::of_str(self.cpuset_name.as_str()));
        add_field(&mut fields, "config_file", Json::of_str(self.config_file.as_str()));
        Json::Object(fields)
    }

    /// The text that is written for the settings.
    pub fn save(&self) -> (r: String)
        ensures
            r@ == ended(json_pretty(settings_json(self@))),
            json_parsed(r@) == Ok::<JsonV, Seq<char>>(settings_json(self@)),
    {
        let value = self.to_value();
        proof {
            lemma_settings_plain(*self);
        }
        let text = match value.pretty() {
            Ok(t) => t,
            Err(_) => String::new(),
        };
        let mut t = chars_of(text.as_str());
        t.push('\n');
        string_of(t.as_slice())
    }
}

/// The path of the settings file.
pub fn settings_file(dir: &Option<String>) -> (r: String)
    ensures
        r@ == state_path(text_in(*dir), SETTINGS_FILE_NAME@),
{
    state_file(SETTINGS_FILE_NAME, dir)
}

/// The settings that were read, what is to be written in their place where there is no file, and
/// what is to be said.
pub struct LoadedSettings {
    pub settings: Settings,
    pub create: Option<String>,
    pub warning: Option<String>,
}

pub open spec fn damaged_message(path: Seq<char>, error: Seq<char>) -> Seq<char> {
    "警告: "@ + path + " 已损坏("@ + error + ")，使用默认设置"@
}

pub open spec fn unread_message(path: Seq<char>, error: Seq<char>) -> Seq<char> {
    "警告: 读取 "@ + path + " 失败("@ + error + ")，使用默认设置"@
}

/// The settings in a document that was parsed, or those without a file where its text was damaged.
pub fn settings_from_parsed(path: &str, doc: Result<Json, String>, d: Settings) -> (r: LoadedSettings)
    ensures
        r.create is None,
        match doc {
            Ok(j) => r.settings@ == settings_of(j@, d@) && r.warning is None,
            Err(e) => r.settings@ == d@ && (r.warning matches Some(w) && w@ == damaged_message(
                path@,
                e@,
            )),
        },
{
    match doc {
        Ok(j) => LoadedSettings {
            settings: Settings::from_json(&j, &d),
            create: None,
            warning: None,
        },
        Err(e) => {
            let message = text5("警告: ", path, " 已损坏(", e.as_str(), ")，使用默认设置");
            LoadedSettings { settings: d, create: None, warning: Some(message) }
        },
    }
}

/// The settings, as far as their file could be read; `d` are those without a file.
pub fn settings_load(path: &str, read: FileRead, d: Settings) -> (r: LoadedSettings)
    ensures
        match read {
            FileRead::Text(text) => r.create is None && match json_parsed(text@) {
                Ok(v) => r.settings@ == settings_of(v, d@) && r.warning is None,
                Err(e) => r.settings@ == d@ && (r.warning matches Some(w) && w@
                    == damaged_message(path@, e)),
            },
            FileRead::Missing => r.settings@ == d@ && r.warning is None && (r.create matches Some(
                text,
            ) && text@ == ended(json_pretty(settings_json(d@)))),
            FileRead::Failed(e) => r.settings@ == d@ && r.create is None && (
            r.warning matches Some(w) && w@ == unread_message(path@, e@)),
        },
{
    match read {
        FileRead::Text(text) => settings_from_parsed(path, Json::parse(text.as_str()), d),
        FileRead::Missing => {
            let text = d.save();
            LoadedSettings { settings: d, create: Some(text), warning: None }
        },
        FileRead::Failed(e) => {
            let message = text5("警告: 读取 ", path, " 失败(", e.as_str(), ")，使用默认设置");
            LoadedSettings { settings: d, create: None, warning: Some(message) }
        },
    }
}

/// What stands behind the last slash of a path.
pub open spec fn base_name(path: Seq<char>) -> Seq<char> {
    match last_of(path, '/') {
        Some(i) => path.skip(i + 1),
        None => path,
    }
}

pub fn base_of(path: &str) -> (r: String)
    ensures
        r@ == base_name(path@),
{
    let p = chars_of(path);
    match rfind_char(p.as_slice(), '/') {
        Some(i) => {
            proof {
                lemma_last_of(p@, '/');
            }
            let n: usize = p.len();
            let rest = piece(p.as_slice(), i + 1, n);
            assert(rest@ =~= path@.skip(i + 1));
            string_of(rest.as_slice())
        },
        None => path.to_owned(),
    }
}

/// The settings as they are in force, to be saved.
pub fn settings_save(
    web_enable: bool,
    mode: u8,
    interval: u64,
    base_cpuset: &str,
    config_file: &str,
) -> (r: Settings)
    ensures
        r@ == (SettingsV {
            web_enable,
            mode: mode as int,
            check_interval: if interval < 1 {
                1
            } else {
                interval as int
            },
            cpuset_name: base_name(base_cpuset@),
            config_file: config_file@,
        }),
{
    Settings {
        web_enable,
        mode,
        check_interval: if interval < 1 {
            1
        } else {
            interval
        },
        cpuset_name: base_of(base_cpuset),
        config_file: config_file.to_owned(),
    }
}

// What holds of all settings.

/// Whether settings can be in force.
pub open spec fn valid_settings(s: SettingsV) -> bool {
    0 <= s.mode <= 2 && 1 <= s.check_interval <= 3600 && name_fits(s.cpuset_name) && path_fits(
        s.config_file,
    )
}

/// Whatever a document states, the settings read from it are valid, if those without a file have a
/// valid name and path.
pub proof fn law_settings_read_are_valid(v: JsonV, d: SettingsV)
    requires
        name_fits(d.cpuset_name),
        path_fits(d.config_file),
    ensures
        valid_settings(settings_of(v, d)),
{
}

/// Valid settings are read back from the document that states them.
pub proof fn law_settings_are_read_back(s: SettingsV, d: SettingsV)
    requires
        valid_settings(s),
    ensures
        settings_of(settings_json(s), d) == s,
{
    reveal_strlit("web_enable");
    assert("web_enable"@.len() == 10);
    reveal_strlit("mode");
    assert("mode"@.len() == 4);
    reveal_strlit("check_interval");
    assert("check_interval"@.len() == 14);
    reveal_strlit("cpuset_name");
    assert("cpuset_name"@.len() == 11);
    reveal_strlit("config_file");
    assert("config_file"@.len() == 11);
    assert("cpuset_name"@[1] != "config_file"@[1]);
    let v = settings_json(s);
    assert(at(v, "web_enable"@) == JsonV::Bool(s.web_enable));
    assert(at(v, "mode"@) == JsonV::Whole(s.mode));
    assert(at(v, "check_interval"@) == JsonV::Whole(s.check_interval));
    assert(at(v, "cpuset_name"@) == JsonV::Text(s.cpuset_name));
    assert(at(v, "config_file"@) == JsonV::Text(s.config_file));
}

} // verus!
