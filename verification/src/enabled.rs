//! Which kinds of inventory source are enabled.
//!
//! The list names plugins: `yaml` stands for `.yaml`, `.yml` and `.json` files and for
//! structured files without an extension, `ini` for `.ini`, `toml` for `.toml`, `script`
//! for executables, and `auto` for dispatch on a `plugin:` key. Other names are accepted
//! and stand for nothing.

use vstd::prelude::*;
use crate::text::{names, same, split, split_text, trim, trim_text};

verus! {

/// The enabled kinds.
#[derive(Debug, Clone, Copy)]
pub struct EnabledKinds {
    pub yaml: bool,
    pub ini: bool,
    pub toml: bool,
    pub script: bool,
    pub auto: bool,
}

/// A comma-separated list names `name`, white space around items aside.
pub open spec fn lists_name(list: Seq<char>, name: Seq<char>) -> bool {
    exists|i: int| 0 <= i < split(list, ',').len() && trim(#[trigger] split(list, ',')[i]) == name
}

impl Default for EnabledKinds {
    /// All kinds are enabled.
    fn default() -> (r: Self)
        ensures
            r.yaml && r.ini && r.toml && r.script && r.auto,
    {
        EnabledKinds { yaml: true, ini: true, toml: true, script: true, auto: true }
    }
}

impl EnabledKinds {
    /// The kinds that a setting enables: those it lists, and all where there is none.
    pub fn from_env(setting: Option<&str>) -> (r: Self)
        ensures
            r.yaml == (setting matches Some(s) ==> lists_name(s@, "yaml"@)),
            r.ini == (setting matches Some(s) ==> lists_name(s@, "ini"@)),
            r.toml == (setting matches Some(s) ==> lists_name(s@, "toml"@)),
            r.script == (setting matches Some(s) ==> lists_name(s@, "script"@)),
            r.auto == (setting matches Some(s) ==> lists_name(s@, "auto"@)),
    {
        match setting {
            Some(v) => EnabledKinds::parse(v),
            None => EnabledKinds::default(),
        }
    }

    /// The kinds that a comma-separated list enables.
    pub fn parse(list: &str) -> (r: Self)
        ensures
            r.yaml == lists_name(list@, "yaml"@),
            r.ini == lists_name(list@, "ini"@),
            r.toml == lists_name(list@, "toml"@),
            r.script == lists_name(list@, "script"@),
            r.auto == lists_name(list@, "auto"@),
    {
        let items = split_text(list, ',');
        EnabledKinds {
            yaml: has_item(&items, "yaml", Ghost(list@)),
            ini: has_item(&items, "ini", Ghost(list@)),
            toml: has_item(&items, "toml", Ghost(list@)),
            script: has_item(&items, "script", Ghost(list@)),
            auto: has_item(&items, "auto", Ghost(list@)),
        }
    }
}

/// Whether an item of a split list is `name` once it is trimmed.
fn has_item(items: &Vec<String>, name: &str, Ghost(list): Ghost<Seq<char>>) -> (r: bool)
    requires
        names(items@) == split(list, ','),
    ensures
        r == lists_name(list, name@),
{
    let mut i: usize = 0;
    while i < items.len()
        invariant
            i <= items.len(),
            names(items@) == split(list, ','),
            forall|j: int| 0 <= j < i ==> trim(#[trigger] split(list, ',')[j]) != name@,
        decreases items.len() - i,
    {
        let item = trim_text(items[i].as_str());
        assert(names(items@)[i as int] == items@[i as int]@);
        if same(item.as_str(), name) {
            assert(trim(split(list, ',')[i as int]) == name@);
            return true;
        }
        i += 1;
    }
    false
}

/// The order of a list does not matter: two lists with the same items, in any order and
/// number, enable the same kinds.
pub proof fn law_order_insensitive(a: Seq<char>, b: Seq<char>, name: Seq<char>)
    requires
        forall|x: Seq<char>| #[trigger] split(a, ',').contains(x) <==> split(b, ',').contains(x),
    ensures
        lists_name(a, name) == lists_name(b, name),
{
    if lists_name(a, name) {
        let i = choose|i: int|
            0 <= i < split(a, ',').len() && trim(#[trigger] split(a, ',')[i]) == name;
        let x = split(a, ',')[i];
        assert(split(a, ',').contains(x));
        let j = choose|j: int| 0 <= j < split(b, ',').len() && split(b, ',')[j] == x;
        assert(trim(split(b, ',')[j]) == name);
    }
    if lists_name(b, name) {
        let i = choose|i: int|
            0 <= i < split(b, ',').len() && trim(#[trigger] split(b, ',')[i]) == name;
        let x = split(b, ',')[i];
        assert(split(b, ',').contains(x));
        assert(split(a, ',').contains(x));
        let j = choose|j: int| 0 <= j < split(a, ',').len() && split(a, ',')[j] == x;
        assert(trim(split(a, ',')[j]) == name);
    }
}

} // verus!
