//! Runtime configuration, read from environment variables.
//!
//! Reading the variables into values and defaults is kept apart from resolving
//! the directories on disk, so that it depends on nothing but the variables.

use crate::order::{same_text, text_before, text_lt, text_lt_total, text_lt_transitive};
use crate::text::{
    bare_start, bare_start_is_bare, lower_char, lower_char_facts, lowered, lowered_twice, parse_i64,
    parse_u64, pieces, pieces_hold_no_separator, signed_value, split, strip_bare, to_lower, trim,
    trimmed, trimmed_end, trimmed_end_is_trimmed, unsigned_value, views,
};
use crate::unix_path::{join, joined};
use vstd::prelude::*;
use vstd::utf8::encode_utf8;

verus! {

/// The direction in which the backlog is shown.
#[derive(Debug, Clone, Copy, PartialEq, Eq, Structural)]
pub enum Order {
    /// Oldest first: ascending by relative path.
    Asc,
    /// Newest first: descending by relative path.
    Desc,
}

/// Where images are read from when `SOURCE_DIR` is unset.
pub const DEFAULT_SOURCE_DIR: &'static str = "/data/images";

/// The direction when `ORDER` is unset.
pub const DEFAULT_ORDER: Order = Order::Asc;

/// The extensions when `EXTENSIONS` is unset.
pub const DEFAULT_EXTENSIONS: &'static str = "png,jpg,jpeg,webp";

/// The undo depth when `UNDO_DEPTH` is unset.
pub const DEFAULT_UNDO_DEPTH: usize = 50;

/// The listen address when `BIND_ADDR` is unset.
pub const DEFAULT_BIND_ADDR: &'static str = "0.0.0.0:8080";

/// The UTC offset when `TZ_OFFSET_HOURS` is unset.
pub const DEFAULT_TZ_OFFSET_HOURS: i64 = 0;

/// Why the configuration is rejected.
#[derive(Debug, PartialEq, Eq)]
pub enum ConfigError {
    /// `ORDER` is neither `asc` nor `desc`; holds what it was read as.
    InvalidOrder(String),
    /// `EXTENSIONS` names no extension.
    EmptyExtensions,
    /// `UNDO_DEPTH` is not a positive integer.
    InvalidUndoDepth(String),
    /// `BIND_ADDR` is not a socket address.
    InvalidBindAddr(String),
    /// `TZ_OFFSET_HOURS` is not an integer between -26 and 26.
    InvalidTzOffset(String),
}

/// What a [`ConfigError`] says.
pub enum ConfigErrorView {
    InvalidOrder(Seq<char>),
    EmptyExtensions,
    InvalidUndoDepth(Seq<char>),
    InvalidBindAddr(Seq<char>),
    InvalidTzOffset(Seq<char>),
}

impl View for ConfigError {
    type V = ConfigErrorView;

    open spec fn view(&self) -> ConfigErrorView {
        match self {
            ConfigError::InvalidOrder(v) => ConfigErrorView::InvalidOrder(v@),
            ConfigError::EmptyExtensions => ConfigErrorView::EmptyExtensions,
            ConfigError::InvalidUndoDepth(v) => ConfigErrorView::InvalidUndoDepth(v@),
            ConfigError::InvalidBindAddr(v) => ConfigErrorView::InvalidBindAddr(v@),
            ConfigError::InvalidTzOffset(v) => ConfigErrorView::InvalidTzOffset(v@),
        }
    }
}

/// A text as `{:?}` shows it, in quotes and with escapes.
pub uninterp spec fn debug_text(s: Seq<char>) -> Seq<char>;

/// The standard library's `{:?}` formatting of a text; which escapes it uses
/// is left unsaid.
#[verifier::external_body]
fn quote(s: &str) -> (r: String)
    ensures
        r@ == debug_text(s@),
{
    format!("{s:?}")
}

impl ConfigError {
    /// The rejected value, where there is one.
    pub open spec fn value(self) -> Option<Seq<char>> {
        match self {
            ConfigError::InvalidOrder(v) => Some(v@),
            ConfigError::EmptyExtensions => None,
            ConfigError::InvalidUndoDepth(v) => Some(v@),
            ConfigError::InvalidBindAddr(v) => Some(v@),
            ConfigError::InvalidTzOffset(v) => Some(v@),
        }
    }

    /// The sentence for this error, around the quoted value.
    pub open spec fn sentence(self, quoted: Seq<char>) -> Seq<char> {
        match self {
            ConfigError::InvalidOrder(_) => "ORDER must be 'asc' or 'desc', got "@ + quoted,
            ConfigError::EmptyExtensions => "EXTENSIONS resolved to an empty set"@,
            ConfigError::InvalidUndoDepth(_) => "UNDO_DEPTH must be a positive integer, got "@
                + quoted,
            ConfigError::InvalidBindAddr(_) => "BIND_ADDR is not a valid socket address: "@ + quoted,
            ConfigError::InvalidTzOffset(_) =>
                "TZ_OFFSET_HOURS must be an integer between -26 and 26, got "@ + quoted,
        }
    }

    /// The sentence for this error, around an already quoted value.
    pub fn message_with(&self, quoted: &str) -> (r: String)
        ensures
            r@ == self.sentence(quoted@),
    {
        match self {
            ConfigError::InvalidOrder(_) => "ORDER must be 'asc' or 'desc', got ".to_string().concat(
                quoted,
            ),
            ConfigError::EmptyExtensions => "EXTENSIONS resolved to an empty set".to_string(),
            ConfigError::InvalidUndoDepth(
                _,
            ) => "UNDO_DEPTH must be a positive integer, got ".to_string().concat(quoted),
            ConfigError::InvalidBindAddr(
                _,
            ) => "BIND_ADDR is not a valid socket address: ".to_string().concat(quoted),
            ConfigError::InvalidTzOffset(
                _,
            ) => "TZ_OFFSET_HOURS must be an integer between -26 and 26, got ".to_string().concat(
                quoted,
            ),
        }
    }

    /// What to tell the user.
    pub fn message(&self) -> (r: String)
        ensures
            r@ == self.sentence(
                match self.value() {
                    Some(v) => debug_text(v),
                    None => Seq::empty(),
                },
            ),
    {
        match self {
            ConfigError::InvalidOrder(v) => self.message_with(quote(v.as_str()).as_str()),
            ConfigError::EmptyExtensions => self.message_with(""),
            ConfigError::InvalidUndoDepth(v) => self.message_with(quote(v.as_str()).as_str()),
            ConfigError::InvalidBindAddr(v) => self.message_with(quote(v.as_str()).as_str()),
            ConfigError::InvalidTzOffset(v) => self.message_with(quote(v.as_str()).as_str()),
        }
    }
}

/// Whether the texts are in ascending order, none of them twice.
pub open spec fn ascending(s: Seq<Seq<char>>) -> bool {
    forall|i: int, j: int| 0 <= i < j < s.len() ==> text_lt(#[trigger] s[i], #[trigger] s[j])
}

/// An extension as it is compared: without leading dots and without white space
/// around it, in ASCII lower case.
pub open spec fn normalized(e: Seq<char>) -> Seq<char> {
    lowered(trimmed_end(bare_start(e)))
}

/// The extensions that a comma-separated list names.
pub open spec fn extension_set(s: Seq<char>) -> Set<Seq<char>> {
    Set::new(
        |e: Seq<char>|
            e.len() > 0 && exists|i: int|
                0 <= i < pieces(s, ',').len() && e == normalized(#[trigger] pieces(s, ',')[i]),
    )
}

/// The extensions that a list names are not empty, start with no dot, are in
/// lower case, have no white space around them, and hold no comma.
pub proof fn extensions_are_normalized(s: Seq<char>, e: Seq<char>)
    requires
        extension_set(s).contains(e),
    ensures
        e.len() > 0,
        e[0] != '.',
        lowered(e) == e,
        trimmed(e) == e,
        !e.contains(','),
{
    let i = choose|i: int|
        0 <= i < pieces(s, ',').len() && e == normalized(#[trigger] pieces(s, ',')[i]);
    let piece = pieces(s, ',')[i];
    let start = bare_start(piece);
    let bare = trimmed_end(start);
    pieces_hold_no_separator(s, ',');
    bare_start_is_bare(piece);
    trimmed_end_is_trimmed(start);
    lowered_twice(bare);
    lower_char_facts(bare[0]);
    lower_char_facts(bare.last());
    assert(e[0] == lower_char(bare[0]));
    assert(e.last() == lower_char(bare.last()));
    if e.contains(',') {
        let k = choose|k: int| 0 <= k < e.len() && e[k] == ',';
        lower_char_facts(bare[k]);
        assert(bare[k] == start[k]);
        assert(start[k] == piece[piece.len() - start.len() + k]);
        assert(piece.contains(piece[piece.len() - start.len() + k]));
    }
}

/// The order that a text names.
pub open spec fn order_named(s: Seq<char>) -> Result<Order, ConfigErrorView> {
    let word = lowered(trimmed(s));
    if word == "asc"@ {
        Ok(Order::Asc)
    } else if word == "desc"@ {
        Ok(Order::Desc)
    } else {
        Err(ConfigErrorView::InvalidOrder(word))
    }
}

/// Read a direction, whatever its case and the white space around it.
pub fn parse_order(s: &str) -> (r: Result<Order, ConfigError>)
    ensures
        match r {
            Ok(o) => order_named(s@) == Ok::<Order, ConfigErrorView>(o),
            Err(e) => order_named(s@) == Err::<Order, ConfigErrorView>(e@),
        },
{
    let word = to_lower(trim(s).as_str());
    proof {
        reveal_strlit("asc");
        reveal_strlit("desc");
        assert("asc"@.len() == 3 && "desc"@.len() == 4);
    }
    if same_text(word.as_str(), "asc") {
        Ok(Order::Asc)
    } else if same_text(word.as_str(), "desc") {
        Ok(Order::Desc)
    } else {
        Err(ConfigError::InvalidOrder(word))
    }
}

/// Whether `list` holds `t`.
pub fn has_text(list: &Vec<String>, t: &str) -> (r: bool)
    ensures
        r == views(list@).contains(t@),
{
    let mut i: usize = 0;
    while i < list.len()
        invariant
            i <= list@.len(),
            forall|k: int| 0 <= k < i ==> list@[k]@ != t@,
        decreases list@.len() - i,
    {
        if same_text(list[i].as_str(), t) {
            assert(views(list@)[i as int] == t@);
            return true;
        }
        i = i + 1;
    }
    proof {
        if views(list@).contains(t@) {
            let k = choose|k: int| 0 <= k < views(list@).len() && views(list@)[k] == t@;
            assert(list@[k]@ == t@);
        }
    }
    false
}

/// Put `t` in its place in an ascending list, unless it is there.
fn insert_text(list: &mut Vec<String>, t: String)
    requires
        ascending(views(old(list)@)),
    ensures
        ascending(views(final(list)@)),
        forall|e: Seq<char>|
            views(final(list)@).contains(e) <==> views(old(list)@).contains(e) || e == t@,
{
    if has_text(list, t.as_str()) {
        return;
    }
    let mut i: usize = 0;
    while i < list.len() && text_before(list[i].as_str(), t.as_str())
        invariant
            i <= list@.len(),
            *list == *old(list),
            forall|k: int| 0 <= k < i ==> text_lt(#[trigger] views(list@)[k], t@),
        decreases list@.len() - i,
    {
        i = i + 1;
    }
    let ghost before = views(list@);
    let ghost new = t@;
    proof {
        assert forall|k: int| i <= k < before.len() implies text_lt(new, #[trigger] before[k]) by {
            text_lt_total(before[i as int], new);
            assert(before[i as int] != new);
            if k > i {
                text_lt_transitive(new, before[i as int], before[k]);
            }
        }
    }
    list.insert(i, t);
    proof {
        let after = views(list@);
        assert(after =~= before.insert(i as int, new));
        assert forall|e: Seq<char>| after.contains(e) <==> before.contains(e) || e == new by {
            if before.contains(e) {
                let k = choose|k: int| 0 <= k < before.len() && before[k] == e;
                assert(after[if k < i { k } else { k + 1 }] == e);
            }
            if e == new {
                assert(after[i as int] == e);
            }
            if after.contains(e) {
                let k = choose|k: int| 0 <= k < after.len() && after[k] == e;
                if k < i {
                    assert(before[k] == e);
                } else if k > i {
                    assert(before[k - 1] == e);
                }
            }
        }
    }
}

/// Read a comma-separated list of extensions into an ascending list of
/// normalized ones, leaving out empty entries.
pub fn parse_extensions(s: &str) -> (r: Result<Vec<String>, ConfigError>)
    ensures
        match r {
            Ok(v) => ascending(views(v@)) && v@.len() > 0 && forall|e: Seq<char>|
                views(v@).contains(e) <==> extension_set(s@).contains(e),
            Err(e) => e@ == ConfigErrorView::EmptyExtensions && extension_set(s@) =~= Set::empty(),
        },
{
    let parts = split(s, ',');
    let mut out: Vec<String> = Vec::new();
    let mut i: usize = 0;
    let ghost all = pieces(s@, ',');
    while i < parts.len()
        invariant
            i <= parts@.len(),
            all == pieces(s@, ','),
            views(parts@) == all,
            ascending(views(out@)),
            forall|e: Seq<char>|
                views(out@).contains(e) <==> e.len() > 0 && exists|k: int|
                    0 <= k < i && e == normalized(#[trigger] all[k]),
        decreases parts@.len() - i,
    {
        let e = to_lower(strip_bare(parts[i].as_str()).as_str());
        let ghost before = views(out@);
        assert(all[i as int] == parts@[i as int]@);
        assert(e@ == normalized(all[i as int]));
        if !e.as_str().is_empty() {
            insert_text(&mut out, e);
        }
        proof {
            assert forall|x: Seq<char>|
                views(out@).contains(x) <==> x.len() > 0 && exists|k: int|
                    0 <= k < i + 1 && x == normalized(#[trigger] all[k]) by {
                if x.len() > 0 && exists|k: int| 0 <= k < i + 1 && x == normalized(#[trigger] all[k]) {
                    let k = choose|k: int| 0 <= k < i + 1 && x == normalized(#[trigger] all[k]);
                    assert(k < i ==> before.contains(x));
                }
            }
        }
        i = i + 1;
    }
    proof {
        assert forall|e: Seq<char>| views(out@).contains(e) <==> extension_set(s@).contains(e) by {}
    }
    if out.len() == 0 {
        proof {
            assert forall|e: Seq<char>| !extension_set(s@).contains(e) by {
                assert(!views(out@).contains(e));
            }
        }
        Err(ConfigError::EmptyExtensions)
    } else {
        Ok(out)
    }
}

/// The environment variables that the configuration is read from.
#[derive(Debug)]
pub struct Vars {
    pub source_dir: Option<String>,
    pub keep_dir: Option<String>,
    pub trash_dir: Option<String>,
    pub order: Option<String>,
    pub extensions: Option<String>,
    pub undo_depth: Option<String>,
    pub bind_addr: Option<String>,
    pub tz_offset_hours: Option<String>,
}

/// A variable's value; an empty one counts as unset.
pub open spec fn set_value(v: Option<String>) -> Option<Seq<char>> {
    match v {
        Some(s) => if s@.len() > 0 {
            Some(s@)
        } else {
            None
        },
        None => None,
    }
}

/// A variable's value, or `default` where it is unset or empty.
pub open spec fn value_or(v: Option<String>, default: Seq<char>) -> Seq<char> {
    match set_value(v) {
        Some(s) => s,
        None => default,
    }
}

/// Configuration before its directories are resolved: paths are as supplied.
#[derive(Debug, Clone)]
pub struct RawConfig {
    pub source_dir: Vec<u8>,
    pub keep_dir: Vec<u8>,
    pub trash_dir: Vec<u8>,
    pub order: Order,
    /// Normalized extensions (`png`), ascending.
    pub extensions: Vec<String>,
    pub undo_depth: usize,
    /// The text of a socket address.
    pub bind_addr: String,
    /// Whole hours by which the day of the daily totals is shifted from UTC.
    pub tz_offset_hours: i64,
}

/// Configuration whose directories exist and are canonical.
#[derive(Debug, Clone)]
pub struct Config {
    pub source_dir: Vec<u8>,
    pub keep_dir: Vec<u8>,
    pub trash_dir: Vec<u8>,
    pub order: Order,
    pub extensions: Vec<String>,
    pub undo_depth: usize,
    pub bind_addr: String,
    pub tz_offset_hours: i64,
}

/// What a [`RawConfig`] says.
#[verifier::ext_equal]
pub struct RawConfigView {
    pub source_dir: Seq<u8>,
    pub keep_dir: Seq<u8>,
    pub trash_dir: Seq<u8>,
    pub order: Order,
    pub extensions: Set<Seq<char>>,
    pub undo_depth: usize,
    pub bind_addr: Seq<char>,
    pub tz_offset_hours: i64,
}

impl View for RawConfig {
    type V = RawConfigView;

    open spec fn view(&self) -> RawConfigView {
        RawConfigView {
            source_dir: self.source_dir@,
            keep_dir: self.keep_dir@,
            trash_dir: self.trash_dir@,
            order: self.order,
            extensions: views(self.extensions@).to_set(),
            undo_depth: self.undo_depth,
            bind_addr: self.bind_addr@,
            tz_offset_hours: self.tz_offset_hours,
        }
    }
}

impl RawConfig {
    /// What every loaded configuration keeps: a non-empty ascending list of
    /// extensions, room for at least one undo, an offset in range.
    pub open spec fn well_formed(self) -> bool {
        &&& ascending(views(self.extensions@))
        &&& self.extensions@.len() > 0
        &&& self.undo_depth > 0
        &&& -26 <= self.tz_offset_hours <= 26
    }
}

/// The listen address that the variables name.
pub open spec fn bind_text(v: Vars) -> Seq<char> {
    value_or(v.bind_addr, DEFAULT_BIND_ADDR@)
}

/// The undo depth that a text names: a positive integer, whatever the white
/// space around it.
pub open spec fn depth_named(s: Seq<char>) -> Option<usize> {
    match unsigned_value(trimmed(s)) {
        Some(n) => if 0 < n <= usize::MAX {
            Some(n as usize)
        } else {
            None
        },
        None => None,
    }
}

/// The offset that a text names: an integer of at most 26 either way, whatever
/// the white space around it.
pub open spec fn offset_named(s: Seq<char>) -> Option<i64> {
    match signed_value(trimmed(s)) {
        Some(n) => if -26 <= n <= 26 {
            Some(n as i64)
        } else {
            None
        },
        None => None,
    }
}

/// The configuration that the variables describe, given whether the listen
/// address is one. The first variable in error decides.
pub open spec fn described(v: Vars, addr_ok: bool) -> Result<RawConfigView, ConfigErrorView> {
    let source = encode_utf8(value_or(v.source_dir, DEFAULT_SOURCE_DIR@));
    let keep = match set_value(v.keep_dir) {
        Some(d) => encode_utf8(d),
        None => joined(source, encode_utf8("keep"@)),
    };
    let trash = match set_value(v.trash_dir) {
        Some(d) => encode_utf8(d),
        None => joined(source, encode_utf8("trash"@)),
    };
    let order = match set_value(v.order) {
        Some(o) => order_named(o),
        None => Ok(DEFAULT_ORDER),
    };
    let extensions = extension_set(value_or(v.extensions, DEFAULT_EXTENSIONS@));
    let depth = match set_value(v.undo_depth) {
        Some(d) => depth_named(d),
        None => Some(DEFAULT_UNDO_DEPTH),
    };
    let offset = match set_value(v.tz_offset_hours) {
        Some(t) => offset_named(t),
        None => Some(DEFAULT_TZ_OFFSET_HOURS),
    };
    if order is Err {
        Err(order->Err_0)
    } else if extensions == Set::<Seq<char>>::empty() {
        Err(ConfigErrorView::EmptyExtensions)
    } else if depth is None {
        Err(ConfigErrorView::InvalidUndoDepth(set_value(v.undo_depth)->0))
    } else if !addr_ok {
        Err(ConfigErrorView::InvalidBindAddr(bind_text(v)))
    } else if offset is None {
        Err(ConfigErrorView::InvalidTzOffset(set_value(v.tz_offset_hours)->0))
    } else {
        Ok(
            RawConfigView {
                source_dir: source,
                keep_dir: keep,
                trash_dir: trash,
                order: order->Ok_0,
                extensions,
                undo_depth: depth->0,
                bind_addr: bind_text(v),
                tz_offset_hours: offset->0,
            },
        )
    }
}

/// Whether `r` is what `described` says.
pub open spec fn is_described(
    r: Result<RawConfig, ConfigError>,
    v: Vars,
    addr_ok: bool,
) -> bool {
    match r {
        Ok(c) => described(v, addr_ok) == Ok::<RawConfigView, ConfigErrorView>(c@)
            && c.well_formed(),
        Err(e) => described(v, addr_ok) == Err::<RawConfigView, ConfigErrorView>(e@),
    }
}

/// Whether each variable holds what `get` can answer for its name.
pub open spec fn answered<F: Fn(&str) -> Option<String>>(get: F, v: Vars) -> bool {
    &&& call_ensures(get, ("SOURCE_DIR",), v.source_dir)
    &&& call_ensures(get, ("KEEP_DIR",), v.keep_dir)
    &&& call_ensures(get, ("TRASH_DIR",), v.trash_dir)
    &&& call_ensures(get, ("ORDER",), v.order)
    &&& call_ensures(get, ("EXTENSIONS",), v.extensions)
    &&& call_ensures(get, ("UNDO_DEPTH",), v.undo_depth)
    &&& call_ensures(get, ("BIND_ADDR",), v.bind_addr)
    &&& call_ensures(get, ("TZ_OFFSET_HOURS",), v.tz_offset_hours)
}

/// A variable's value; an empty one counts as unset.
fn set_text(v: &Option<String>) -> (r: Option<&str>)
    ensures
        match r {
            Some(s) => set_value(*v) == Some(s@),
            None => set_value(*v) is None,
        },
{
    match v {
        Some(s) => if s.as_str().is_empty() {
            None
        } else {
            Some(s.as_str())
        },
        None => None,
    }
}

/// A variable's value, or `default` where it is unset or empty.
fn text_or<'a>(v: &'a Option<String>, default: &'a str) -> (r: &'a str)
    ensures
        r@ == value_or(*v, default@),
{
    match set_text(v) {
        Some(s) => s,
        None => default,
    }
}

/// A directory variable, or the named child of `source` where it is unset.
fn dir_or_child(v: &Option<String>, source: &Vec<u8>, child: &str) -> (r: Vec<u8>)
    ensures
        r@ == (match set_value(*v) {
            Some(d) => encode_utf8(d),
            None => joined(source@, encode_utf8(child@)),
        }),
{
    match set_text(v) {
        Some(d) => crate::unix_path::copy_bytes(d.as_bytes()),
        None => join(source.as_slice(), child.as_bytes()),
    }
}

/// Read an undo depth.
fn parse_depth(s: &str) -> (r: Option<usize>)
    ensures
        r == depth_named(s@),
{
    match parse_u64(trim(s).as_str()) {
        Some(n) => if 0 < n && n <= usize::MAX as u64 {
            Some(n as usize)
        } else {
            None
        },
        None => None,
    }
}

/// Read a UTC offset.
fn parse_offset(s: &str) -> (r: Option<i64>)
    ensures
        r == offset_named(s@),
{
    match parse_i64(trim(s).as_str()) {
        Some(n) => if -26 <= n && n <= 26 {
            Some(n)
        } else {
            None
        },
        None => None,
    }
}

impl Vars {
    /// The listen address that the variables name.
    pub fn bind_text(&self) -> (r: &str)
        ensures
            r@ == bind_text(*self),
    {
        text_or(&self.bind_addr, DEFAULT_BIND_ADDR)
    }
}

impl RawConfig {
    /// The configuration that the variables describe. `addr_ok` says whether
    /// [`Vars::bind_text`] is a socket address.
    pub fn from_vars(v: &Vars, addr_ok: bool) -> (r: Result<RawConfig, ConfigError>)
        ensures
            is_described(r, *v, addr_ok),
    {
        let source_dir = crate::unix_path::copy_bytes(
            text_or(&v.source_dir, DEFAULT_SOURCE_DIR).as_bytes(),
        );
        let keep_dir = dir_or_child(&v.keep_dir, &source_dir, "keep");
        let trash_dir = dir_or_child(&v.trash_dir, &source_dir, "trash");
        let order = match set_text(&v.order) {
            Some(o) => match parse_order(o) {
                Ok(o) => o,
                Err(e) => {
                    return Err(e);
                },
            },
            None => DEFAULT_ORDER,
        };
        let extensions = match parse_extensions(text_or(&v.extensions, DEFAULT_EXTENSIONS)) {
            Ok(x) => x,
            Err(e) => {
                return Err(e);
            },
        };
        proof {
            let set = extension_set(value_or(v.extensions, DEFAULT_EXTENSIONS@));
            assert(views(extensions@).to_set() =~= set);
            assert(set.contains(views(extensions@)[0])) by {
                assert(views(extensions@).contains(views(extensions@)[0]));
            }
        }
        let undo_depth = match set_text(&v.undo_depth) {
            Some(d) => match parse_depth(d) {
                Some(n) => n,
                None => {
                    return Err(ConfigError::InvalidUndoDepth(d.to_owned()));
                },
            },
            None => DEFAULT_UNDO_DEPTH,
        };
        let bind_addr = v.bind_text().to_owned();
        if !addr_ok {
            return Err(ConfigError::InvalidBindAddr(bind_addr));
        }
        let tz_offset_hours = match set_text(&v.tz_offset_hours) {
            Some(t) => match parse_offset(t) {
                Some(n) => n,
                None => {
                    return Err(ConfigError::InvalidTzOffset(t.to_owned()));
                },
            },
            None => DEFAULT_TZ_OFFSET_HOURS,
        };
        Ok(
            RawConfig {
                source_dir,
                keep_dir,
                trash_dir,
                order,
                extensions,
                undo_depth,
                bind_addr,
                tz_offset_hours,
            },
        )
    }

    /// Load the configuration through `get`, which answers a variable's name
    /// with its value, or `None` where it is unset; `is_addr` says whether a
    /// text is a socket address.
    pub fn load(
        get: impl Fn(&str) -> Option<String>,
        is_addr: impl Fn(&str) -> bool,
    ) -> (r: Result<RawConfig, ConfigError>)
        requires
            forall|name: &str| call_requires(get, (name,)),
            forall|addr: &str| call_requires(is_addr, (addr,)),
        ensures
            exists|v: Vars, addr: &str, addr_ok: bool|
                #![trigger answered(get, v), call_ensures(is_addr, (addr,), addr_ok)]
                answered(get, v) && addr@ == bind_text(v) && call_ensures(
                    is_addr,
                    (addr,),
                    addr_ok,
                ) && is_described(r, v, addr_ok),
    {
        let v = Vars {
            source_dir: get("SOURCE_DIR"),
            keep_dir: get("KEEP_DIR"),
            trash_dir: get("TRASH_DIR"),
            order: get("ORDER"),
            extensions: get("EXTENSIONS"),
            undo_depth: get("UNDO_DEPTH"),
            bind_addr: get("BIND_ADDR"),
            tz_offset_hours: get("TZ_OFFSET_HOURS"),
        };
        let addr = v.bind_text();
        let addr_ok = is_addr(addr);
        assert(answered(get, v));
        RawConfig::from_vars(&v, addr_ok)
    }
}

} // verus!
