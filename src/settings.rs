//! What a report is about: the window, the grouping mode and the class aliases,
//! and the one key derivation that every consumer of sessions shares.

use vstd::prelude::*;
use crate::interval::Interval;

verus! {

/// Options of a report.
///
/// `full` groups by class and title together; otherwise a non-empty
/// `class_arg` restricts the report to that class and groups by title, and an
/// empty one groups by class. `multi_timeline` asks for one timeline per key.
/// `class_mappings` renames classes as they are read (the first matching
/// entry wins).
pub struct Settings {
    pub full: bool,
    pub multi_timeline: bool,
    pub class_arg: String,
    pub interval: Interval,
    pub class_mappings: Vec<(String, String)>,
}

/// The built-in class aliases: source class and the name it is reported under.
pub open spec fn default_aliases() -> Seq<(Seq<char>, Seq<char>)> {
    seq![
        ("steam_app_813230"@, "steam"@),
        ("gcr-prompter"@, "keyring"@),
        (".blueman-manager-wrapped"@, "blueman"@),
        ("com.github.wwmm.easyeffects"@, "easyeffects"@),
        ("org.gnome.Nautilus"@, "nautilus"@),
        ("org.pwmt.zathura"@, "zathura"@),
    ]
}

/// The views of an alias list.
pub open spec fn aliases_view(maps: Seq<(String, String)>) -> Seq<(Seq<char>, Seq<char>)> {
    maps.map_values(|p: (String, String)| (p.0@, p.1@))
}

fn pair(a: &str, b: &str) -> (r: (String, String))
    ensures
        r.0@ == a@ && r.1@ == b@,
{
    (String::from_str(a), String::from_str(b))
}

impl Settings {
    /// Report options for `interval`: grouped by class, over every class,
    /// one timeline, with the built-in class aliases.
    pub fn new(interval: Interval) -> (r: Settings)
        ensures
            !r.full && !r.multi_timeline && r.class_arg@.len() == 0 && r.interval == interval,
            aliases_view(r.class_mappings@) == default_aliases(),
    {
        let mut maps: Vec<(String, String)> = Vec::new();
        maps.push(pair("steam_app_813230", "steam"));
        maps.push(pair("gcr-prompter", "keyring"));
        maps.push(pair(".blueman-manager-wrapped", "blueman"));
        maps.push(pair("com.github.wwmm.easyeffects", "easyeffects"));
        maps.push(pair("org.gnome.Nautilus", "nautilus"));
        maps.push(pair("org.pwmt.zathura", "zathura"));
        assert(aliases_view(maps@) =~= default_aliases());
        Settings { full: false, multi_timeline: false, class_arg: String::new(), interval, class_mappings: maps }
    }
}

/// The class that `c` is reported as under the alias list `maps`.
pub open spec fn alias_of(maps: Seq<(String, String)>, c: Seq<char>) -> Seq<char>
    decreases maps.len(),
{
    if maps.len() == 0 {
        c
    } else if maps[0].0@ == c {
        maps[0].1@
    } else {
        alias_of(maps.drop_first(), c)
    }
}

/// The aggregation key of a session of `class` and `title`: class and title
/// together in full mode, else the title where a class filter is set, else
/// the class.
pub open spec fn key_of(settings: Settings, class: Seq<char>, title: Seq<char>) -> Seq<char> {
    if settings.full {
        class + ": "@ + title
    } else if settings.class_arg@.len() == 0 {
        class
    } else {
        title
    }
}

/// Whether sessions of `class` count in the per-key figures: in full mode
/// and without a class filter all do, else only those of the filtered class.
pub open spec fn counts_class(settings: Settings, class: Seq<char>) -> bool {
    settings.full || settings.class_arg@.len() == 0 || class == settings.class_arg@
}

/// The key that a session of `class` and `title` is credited under, or
/// `None` where the class filter leaves it out.
pub open spec fn counted_key(settings: Settings, class: Seq<char>, title: Seq<char>) -> Option<Seq<char>> {
    if counts_class(settings, class) {
        Some(key_of(settings, class, title))
    } else {
        None
    }
}

/// Renames `class` by the first alias entry whose source matches it.
pub fn alias(settings: &Settings, class: String) -> (r: String)
    ensures
        r@ == alias_of(settings.class_mappings@, class@),
{
    let mut i: usize = 0;
    assert(settings.class_mappings@.subrange(0, settings.class_mappings@.len() as int) =~= settings.class_mappings@);
    while i < settings.class_mappings.len()
        invariant
            i <= settings.class_mappings@.len(),
            alias_of(settings.class_mappings@, class@) == alias_of(settings.class_mappings@.subrange(i as int, settings.class_mappings@.len() as int), class@),
        decreases settings.class_mappings.len() - i,
    {
        let ghost rest = settings.class_mappings@.subrange(i as int, settings.class_mappings@.len() as int);
        assert(rest.drop_first() =~= settings.class_mappings@.subrange(i + 1, settings.class_mappings@.len() as int));
        assert(rest[0] == settings.class_mappings@[i as int]);
        if settings.class_mappings[i].0 == class {
            assert(settings.class_mappings@[i as int].0@ == class@);
            assert(alias_of(rest, class@) == rest[0].1@);
            let r = settings.class_mappings[i].1.clone();
            assert(r@ == settings.class_mappings@[i as int].1@);
            return r;
        }
        i = i + 1;
    }
    assert(settings.class_mappings@.subrange(i as int, settings.class_mappings@.len() as int).len() == 0);
    class
}

/// Derives the aggregation key of a session (see `key_of`).
pub fn key(settings: &Settings, class: &String, title: &String) -> (r: String)
    ensures
        r@ == key_of(*settings, class@, title@),
{
    if settings.full {
        class.clone().concat(": ").concat(title.as_str())
    } else if settings.class_arg.as_str().is_empty() {
        class.clone()
    } else {
        title.clone()
    }
}

/// Tests whether sessions of `class` count under the class filter (see `counts_class`).
pub fn counts(settings: &Settings, class: &String) -> (r: bool)
    ensures
        r == counts_class(*settings, class@),
{
    settings.full || settings.class_arg.as_str().is_empty() || *class == settings.class_arg
}

} // verus!
