//! Laws of the configuration.

use crate::config::{
    debug_text, extension_set, has_text, is_described, normalized, order_named, parse_extensions,
    parse_order, set_value, ConfigError, ConfigErrorView, Order, RawConfig, Vars,
};
use crate::laws::texts::{
    all_white, all_white_or_dots, end_is_white, is_bare, is_piece, lowering_keeps_places,
    no_white_ends, pieces_are_between_separators, start_is_skipped, start_is_white,
};
use crate::moves::worded;
use crate::order::text_lt;
use crate::resolve::{
    FindKeep, FindSource, FindTrash, MakeKeep, MakeTrash, ResolveError, ResolveStep,
};
use crate::text::{
    bare_start, is_white, lowered, pieces, signed_value, trimmed, trimmed_end, trimmed_start,
    unsigned_value, views,
};
use crate::unix_path::{joined, shown};
use vstd::prelude::*;
use vstd::utf8::encode_utf8;

verus! {

proof fn start_splits(s: Seq<char>) -> (a: Seq<char>)
    ensures
        s == a + trimmed_start(s),
        all_white(a),
        trimmed_start(s).len() > 0 ==> !is_white(trimmed_start(s)[0]),
    decreases s.len(),
{
    if s.len() > 0 && is_white(s[0]) {
        let rest = start_splits(s.drop_first());
        let a = seq![s[0]] + rest;
        assert(s =~= seq![s[0]] + s.drop_first());
        assert(s =~= a + trimmed_start(s));
        assert forall|i: int| 0 <= i < a.len() implies is_white(#[trigger] a[i]) by {
            if i > 0 {
                assert(is_white(rest[i - 1]));
            }
        }
        a
    } else {
        assert(s =~= Seq::<char>::empty() + s);
        Seq::empty()
    }
}

proof fn end_splits(s: Seq<char>) -> (b: Seq<char>)
    ensures
        s == trimmed_end(s) + b,
        all_white(b),
        trimmed_end(s).len() > 0 ==> !is_white(trimmed_end(s).last()),
        trimmed_end(s).len() > 0 ==> trimmed_end(s)[0] == s[0],
        s.len() > 0 && !is_white(s[0]) ==> trimmed_end(s).len() > 0,
    decreases s.len(),
{
    if s.len() > 0 && is_white(s.last()) {
        let rest = end_splits(s.drop_last());
        let b = rest.push(s.last());
        assert(s =~= s.drop_last().push(s.last()));
        assert(s =~= trimmed_end(s) + b);
        assert forall|i: int| 0 <= i < b.len() implies is_white(#[trigger] b[i]) by {
            if i < rest.len() {
                assert(is_white(rest[i]));
            }
        }
        b
    } else {
        assert(s =~= s + Seq::<char>::empty());
        Seq::empty()
    }
}

proof fn bare_splits(s: Seq<char>) -> (a: Seq<char>)
    ensures
        s == a + bare_start(s),
        all_white_or_dots(a),
        bare_start(s).len() > 0 ==> !is_white(bare_start(s)[0]) && bare_start(s)[0] != '.',
    decreases s.len(),
{
    if s.len() > 0 && (is_white(s[0]) || s[0] == '.') {
        let rest = bare_splits(s.drop_first());
        let a = seq![s[0]] + rest;
        assert(s =~= seq![s[0]] + s.drop_first());
        assert(s =~= a + bare_start(s));
        assert forall|i: int| 0 <= i < a.len() implies is_white(#[trigger] a[i]) || a[i] == '.' by {
            if i > 0 {
                assert(is_white(rest[i - 1]) || rest[i - 1] == '.');
            }
        }
        a
    } else {
        assert(s =~= Seq::<char>::empty() + s);
        Seq::empty()
    }
}

/// Whether `m` is `word` with any of its letters written large.
pub open spec fn spells(m: Seq<char>, word: Seq<char>) -> bool {
    m.len() == word.len() && forall|i: int|
        0 <= i < m.len() ==> (#[trigger] m[i] == word[i] && !(65 <= m[i] as u32 <= 90)) || (65
            <= m[i] as u32 <= 90 && m[i] as u32 + 32 == word[i] as u32)
}

proof fn spelling_is_lowering(m: Seq<char>, word: Seq<char>)
    ensures
        spells(m, word) <==> lowered(m) == word,
{
    if spells(m, word) {
        assert forall|i: int| 0 <= i < m.len() implies lowered(m)[i] == word[i] by {
            lowering_keeps_places(m, i);
            assert(m[i] == m[i]);
            same_code(lowered(m)[i], word[i]);
        }
        if m.len() > 0 {
            lowering_keeps_places(m, 0);
        }
        assert(lowered(m) =~= word);
    }
    if lowered(m) == word {
        assert(m.len() == word.len());
        assert forall|i: int| 0 <= i < m.len() implies (#[trigger] m[i] == word[i] && !(65
            <= m[i] as u32 <= 90)) || (65 <= m[i] as u32 <= 90 && m[i] as u32 + 32
            == word[i] as u32) by {
            lowering_keeps_places(m, i);
        }
    }
}

proof fn same_code(a: char, b: char)
    ensures
        a as u32 == b as u32 ==> a == b,
{
}

/// Whether a text is a word in any spelling, with white space around it.
pub open spec fn says(s: Seq<char>, word: Seq<char>) -> bool {
    exists|a: Seq<char>, m: Seq<char>, b: Seq<char>|
        s == #[trigger] (a + m + b) && all_white(a) && all_white(b) && no_white_ends(m) && spells(
            m,
            word,
        )
}

proof fn trimming_splits(s: Seq<char>) -> (r: (Seq<char>, Seq<char>))
    ensures
        s == r.0 + trimmed(s) + r.1,
        all_white(r.0),
        all_white(r.1),
        no_white_ends(trimmed(s)),
{
    let a = start_splits(s);
    let b = end_splits(trimmed_start(s));
    assert(s =~= a + trimmed(s) + b);
    (a, b)
}

proof fn trimming_is_unique(a: Seq<char>, m: Seq<char>, b: Seq<char>)
    requires
        all_white(a),
        all_white(b),
        no_white_ends(m),
    ensures
        trimmed(a + m + b) == m,
{
    if m.len() > 0 {
        assert(a + m + b =~= a + (m + b));
        assert((m + b)[0] == m[0]);
        start_is_white(a, m + b);
        end_is_white(m, b);
    } else {
        let none = Seq::<char>::empty();
        let all = a + b;
        assert(m =~= none);
        assert(a + m + b =~= all + none);
        assert forall|i: int| 0 <= i < all.len() implies is_white(#[trigger] all[i]) by {
            if i < a.len() {
                assert(is_white(a[i]));
            } else {
                assert(is_white(b[i - a.len()]));
            }
        }
        start_is_white(all, none);
        assert(trimmed_end(none) =~= none);
    }
}

proof fn saying_is_reading(s: Seq<char>, word: Seq<char>)
    ensures
        says(s, word) <==> lowered(trimmed(s)) == word,
{
    if says(s, word) {
        let (a, m, b) = choose|a: Seq<char>, m: Seq<char>, b: Seq<char>|
            s == #[trigger] (a + m + b) && all_white(a) && all_white(b) && no_white_ends(m)
                && spells(m, word);
        trimming_is_unique(a, m, b);
        spelling_is_lowering(m, word);
    }
    if lowered(trimmed(s)) == word {
        let (a, b) = trimming_splits(s);
        spelling_is_lowering(trimmed(s), word);
        assert(s == a + trimmed(s) + b);
    }
}

/// A direction is ascending if and only if it says `asc`, descending if and only
/// if it says `desc`, and rejected otherwise, told as it was read.
pub proof fn direction_is_what_it_says(s: &str, r: Result<Order, ConfigError>)
    requires
        call_ensures(parse_order, (s,), r),
    ensures
        r == Ok::<Order, ConfigError>(Order::Asc) <==> says(s@, seq!['a', 's', 'c']),
        r == Ok::<Order, ConfigError>(Order::Desc) <==> says(s@, seq!['d', 'e', 's', 'c']),
        r matches Err(e) ==> e matches ConfigError::InvalidOrder(v) && says(s@, v@),
{
    order_is_what_it_says(s@);
    if r is Err {
        saying_is_reading(s@, lowered(trimmed(s@)));
    }
}

proof fn order_is_what_it_says(s: Seq<char>)
    ensures
        order_named(s) == Ok::<Order, ConfigErrorView>(Order::Asc) <==> says(s, seq!['a', 's', 'c']),
        order_named(s) == Ok::<Order, ConfigErrorView>(Order::Desc) <==> says(
            s,
            seq!['d', 'e', 's', 'c'],
        ),
        order_named(s) is Err <==> !says(s, seq!['a', 's', 'c']) && !says(
            s,
            seq!['d', 'e', 's', 'c'],
        ),
        order_named(s) matches Err(e) ==> e == ConfigErrorView::InvalidOrder(lowered(trimmed(s))),
{
    reveal_strlit("asc");
    reveal_strlit("desc");
    assert("asc"@ =~= seq!['a', 's', 'c']);
    assert("desc"@ =~= seq!['d', 'e', 's', 'c']);
    saying_is_reading(s, seq!['a', 's', 'c']);
    saying_is_reading(s, seq!['d', 'e', 's', 'c']);
    assert("asc"@.len() == 3 && "desc"@.len() == 4);
}

/// Whether a comma-separated list names an extension: `e` is what is between two
/// commas or ends, without white space and dots in front and white space behind,
/// in small letters, and not empty.
pub open spec fn names_extension(list: Seq<char>, e: Seq<char>) -> bool {
    e.len() > 0 && exists|a: Seq<char>, m: Seq<char>, b: Seq<char>|
        is_piece(list, ',', #[trigger] (a + m + b)) && all_white_or_dots(a) && all_white(b)
            && is_bare(m) && spells(m, e)
}

proof fn naming_is_normalizing(list: Seq<char>, e: Seq<char>)
    ensures
        names_extension(list, e) <==> extension_set(list).contains(e),
{
    let all = pieces(list, ',');
    if names_extension(list, e) {
        let (a, m, b) = choose|a: Seq<char>, m: Seq<char>, b: Seq<char>|
            is_piece(list, ',', #[trigger] (a + m + b)) && all_white_or_dots(a) && all_white(b)
                && is_bare(m) && spells(m, e);
        let p = a + m + b;
        pieces_are_between_separators(list, ',', p);
        spelling_is_lowering(m, e);
        assert(p =~= a + (m + b));
        assert((m + b)[0] == m[0]);
        start_is_skipped(a, m + b);
        end_is_white(m, b);
        let i = choose|i: int| 0 <= i < all.len() && all[i] == p;
        assert(e == normalized(all[i]));
    }
    if extension_set(list).contains(e) {
        let i = choose|i: int| 0 <= i < all.len() && e == normalized(#[trigger] all[i]);
        let p = all[i];
        let m = trimmed_end(bare_start(p));
        let a = bare_splits(p);
        let b = end_splits(bare_start(p));
        assert(p =~= a + m + b);
        assert(all.contains(p));
        pieces_are_between_separators(list, ',', p);
        spelling_is_lowering(m, e);
        assert(is_piece(list, ',', a + m + b));
    }
}

/// The extensions that are read are exactly those that the list names; a list
/// that names none is rejected.
pub proof fn extensions_are_those_named(s: &str, r: Result<Vec<String>, ConfigError>)
    requires
        call_ensures(parse_extensions, (s,), r),
    ensures
        match r {
            Ok(v) => forall|e: Seq<char>| #[trigger]
                views(v@).contains(e) <==> names_extension(s@, e),
            Err(cause) => cause is EmptyExtensions && forall|e: Seq<char>|
                !#[trigger] names_extension(s@, e),
        },
{
    assert forall|e: Seq<char>| #[trigger] names_extension(s@, e) <==> extension_set(s@).contains(
        e,
    ) by {
        naming_is_normalizing(s@, e);
    }
    match r {
        Ok(v) => {
            assert forall|e: Seq<char>| #[trigger] views(v@).contains(e) <==> names_extension(
                s@,
                e,
            ) by {
                assert(views(v@).contains(e) <==> extension_set(s@).contains(e));
            }
        },
        Err(_) => {},
    }
}

/// The value of a variable that is set to something.
pub open spec fn given(v: Option<String>) -> Option<Seq<char>> {
    if v is Some && v->0@.len() > 0 {
        Some(v->0@)
    } else {
        None
    }
}

/// A directory that a variable names, or else the child of the source with a name.
pub open spec fn dir_or(v: Option<String>, source: Seq<u8>, child: Seq<char>) -> Seq<u8> {
    if given(v) is Some {
        encode_utf8(given(v)->0)
    } else {
        joined(source, encode_utf8(child))
    }
}

/// The extension list that the variables name.
pub open spec fn list_given(v: Vars) -> Seq<char> {
    if given(v.extensions) is Some {
        given(v.extensions)->0
    } else {
        "png,jpg,jpeg,webp"@
    }
}

/// Whether the direction that is given, if any, is one.
pub open spec fn order_is_fine(v: Vars) -> bool {
    given(v.order) matches Some(o) ==> says(o, seq!['a', 's', 'c']) || says(
        o,
        seq!['d', 'e', 's', 'c'],
    )
}

/// Whether the undo depth that is given, if any, is a positive integer that fits.
pub open spec fn depth_is_fine(v: Vars) -> bool {
    given(v.undo_depth) matches Some(d) ==> unsigned_value(trimmed(d)) matches Some(n) && 1 <= n
        <= usize::MAX
}

/// Whether the offset that is given, if any, is an integer of at most a day and
/// two hours either way.
pub open spec fn offset_is_fine(v: Vars) -> bool {
    given(v.tz_offset_hours) matches Some(t) ==> signed_value(trimmed(t)) matches Some(n) && -26
        <= n <= 26
}

/// Each setting comes from its own variable, whatever the others are; keep and
/// trash come from the source where they are not given.
pub proof fn settings_come_from_their_variables(
    v: Vars,
    addr_ok: bool,
    r: Result<RawConfig, ConfigError>,
)
    requires
        call_ensures(RawConfig::from_vars, (&v, addr_ok), r),
    ensures
        r matches Ok(c) ==> {
            &&& c.source_dir@ == encode_utf8(
                if given(v.source_dir) is Some {
                    given(v.source_dir)->0
                } else {
                    "/data/images"@
                },
            )
            &&& c.keep_dir@ == dir_or(v.keep_dir, c.source_dir@, "keep"@)
            &&& c.trash_dir@ == dir_or(v.trash_dir, c.source_dir@, "trash"@)
            &&& c.order == Order::Desc <==> (given(v.order) matches Some(o) && says(
                o,
                seq!['d', 'e', 's', 'c'],
            ))
            &&& forall|e: Seq<char>| #[trigger]
                views(c.extensions@).contains(e) <==> names_extension(list_given(v), e)
            &&& match given(v.undo_depth) {
                Some(d) => unsigned_value(trimmed(d)) == Some(c.undo_depth as nat),
                None => c.undo_depth == 50,
            }
            &&& c.bind_addr@ == (if given(v.bind_addr) is Some {
                given(v.bind_addr)->0
            } else {
                "0.0.0.0:8080"@
            })
            &&& match given(v.tz_offset_hours) {
                Some(t) => signed_value(trimmed(t)) == Some(c.tz_offset_hours as int),
                None => c.tz_offset_hours == 0,
            }
        },
{
    given_is_set(v.source_dir);
    given_is_set(v.keep_dir);
    given_is_set(v.trash_dir);
    given_is_set(v.order);
    given_is_set(v.extensions);
    given_is_set(v.undo_depth);
    given_is_set(v.bind_addr);
    given_is_set(v.tz_offset_hours);
    if given(v.order) is Some {
        order_is_what_it_says(given(v.order)->0);
    }
    if r is Ok {
        let c = r->Ok_0;
        assert(is_described(r, v, addr_ok));
        assert(c@.extensions == extension_set(list_given(v)));
        assert forall|e: Seq<char>| #[trigger] views(c.extensions@).contains(e)
            <==> names_extension(list_given(v), e) by {
            naming_is_normalizing(list_given(v), e);
            assert(views(c.extensions@).to_set().contains(e) <==> views(c.extensions@).contains(e));
        }
    }
}

proof fn given_is_set(v: Option<String>)
    ensures
        given(v) == set_value(v),
{
}

/// A configuration is accepted if and only if each setting is fine. Else the
/// first in error is told, with its value: the direction, the extensions, the
/// undo depth, the address, the offset.
pub proof fn first_error_decides(v: Vars, addr_ok: bool, r: Result<RawConfig, ConfigError>)
    requires
        call_ensures(RawConfig::from_vars, (&v, addr_ok), r),
    ensures
        ({
            let list = list_given(v);
            let some = exists|e: Seq<char>| #[trigger] names_extension(list, e);
            match r {
                Ok(_) => order_is_fine(v) && some && depth_is_fine(v) && addr_ok && offset_is_fine(v),
                Err(ConfigError::InvalidOrder(o)) => !order_is_fine(v) && says(
                    given(v.order)->0,
                    o@,
                ),
                Err(ConfigError::EmptyExtensions) => order_is_fine(v) && !some,
                Err(ConfigError::InvalidUndoDepth(d)) => order_is_fine(v) && some
                    && !depth_is_fine(v) && given(v.undo_depth) == Some(d@),
                Err(ConfigError::InvalidBindAddr(a)) => order_is_fine(v) && some && depth_is_fine(v)
                    && !addr_ok && a@ == (if given(v.bind_addr) is Some {
                    given(v.bind_addr)->0
                } else {
                    "0.0.0.0:8080"@
                }),
                Err(ConfigError::InvalidTzOffset(t)) => order_is_fine(v) && some && depth_is_fine(v)
                    && addr_ok && !offset_is_fine(v) && given(v.tz_offset_hours) == Some(t@),
            }
        }),
{
    given_is_set(v.order);
    given_is_set(v.extensions);
    given_is_set(v.undo_depth);
    given_is_set(v.bind_addr);
    given_is_set(v.tz_offset_hours);
    let list = list_given(v);
    if given(v.order) is Some {
        let o = given(v.order)->0;
        order_is_what_it_says(o);
        saying_is_reading(o, lowered(trimmed(o)));
    }
    let set = extension_set(list);
    assert((exists|e: Seq<char>| #[trigger] names_extension(list, e)) <==> set
        != Set::<Seq<char>>::empty()) by {
        if exists|e: Seq<char>| #[trigger] names_extension(list, e) {
            let e = choose|e: Seq<char>| #[trigger] names_extension(list, e);
            naming_is_normalizing(list, e);
            assert(set.contains(e));
        }
        if set != Set::<Seq<char>>::empty() {
            assert(exists|e: Seq<char>| set.contains(e)) by {
                if forall|e: Seq<char>| !set.contains(e) {
                    assert(set =~= Set::<Seq<char>>::empty());
                }
            }
            let e = choose|e: Seq<char>| set.contains(e);
            naming_is_normalizing(list, e);
        }
    }
    assert(is_described(r, v, addr_ok));
}

/// What is loaded is read from the variables of the documented names.
pub proof fn variables_have_their_names<F, G>(
    get: F,
    is_addr: G,
    env: spec_fn(Seq<char>) -> Option<String>,
    r: Result<RawConfig, ConfigError>,
) where F: Fn(&str) -> Option<String>, G: Fn(&str) -> bool
    requires
        call_ensures(RawConfig::load, (get, is_addr), r),
        forall|name: &str, value: Option<String>|
            call_ensures(get, (name,), value) ==> value == env(name@),
    ensures
        exists|addr_ok: bool|
            #[trigger] is_described(
                r,
                (Vars {
                    source_dir: env("SOURCE_DIR"@),
                    keep_dir: env("KEEP_DIR"@),
                    trash_dir: env("TRASH_DIR"@),
                    order: env("ORDER"@),
                    extensions: env("EXTENSIONS"@),
                    undo_depth: env("UNDO_DEPTH"@),
                    bind_addr: env("BIND_ADDR"@),
                    tz_offset_hours: env("TZ_OFFSET_HOURS"@),
                }),
                addr_ok,
            ),
{
}

/// Resolving asks for the canonical source, creates keep and trash as they were
/// supplied, asks for their canonical paths, and ends with the configuration as it
/// was, its directories replaced by the canonical ones.
pub proof fn directories_are_resolved_in_turn(
    raw: RawConfig,
    a: FindSource,
    b: MakeKeep,
    c: MakeTrash,
    d: FindKeep,
    e: FindTrash,
    paths: (Vec<u8>, Vec<u8>, Vec<u8>),
    asked: (&Vec<u8>, &Vec<u8>, &Vec<u8>, &Vec<u8>, &Vec<u8>),
    end: ResolveStep,
)
    requires
        call_ensures(RawConfig::resolve, (raw,), ResolveStep::FindSource(a)),
        call_ensures(FindSource::found, (a, Ok(paths.0)), ResolveStep::MakeKeep(b)),
        call_ensures(MakeKeep::created, (b, Ok(())), ResolveStep::MakeTrash(c)),
        call_ensures(MakeTrash::created, (c, Ok(())), ResolveStep::FindKeep(d)),
        call_ensures(FindKeep::found, (d, Ok(paths.1)), ResolveStep::FindTrash(e)),
        call_ensures(FindTrash::found, (e, Ok(paths.2)), end),
        call_ensures(FindSource::dir, (&a,), asked.0),
        call_ensures(MakeKeep::dir, (&b,), asked.1),
        call_ensures(MakeTrash::dir, (&c,), asked.2),
        call_ensures(FindKeep::dir, (&d,), asked.3),
        call_ensures(FindTrash::dir, (&e,), asked.4),
    ensures
        asked.0@ == raw.source_dir@,
        asked.1@ == raw.keep_dir@,
        asked.2@ == raw.trash_dir@,
        asked.3@ == raw.keep_dir@,
        asked.4@ == raw.trash_dir@,
        end matches ResolveStep::Done(cfg) && {
            &&& cfg.source_dir@ == paths.0@
            &&& cfg.keep_dir@ == paths.1@
            &&& cfg.trash_dir@ == paths.2@
            &&& cfg.order == raw.order
            &&& cfg.extensions == raw.extensions
            &&& cfg.undo_depth == raw.undo_depth
            &&& cfg.bind_addr == raw.bind_addr
            &&& cfg.tz_offset_hours == raw.tz_offset_hours
        },
{
}

/// Each step of resolving leads to the next if it succeeds, and ends with its
/// error if it fails: the directory that has no canonical path is named.
pub proof fn resolving_stops_at_an_error(
    raw: RawConfig,
    a: FindSource,
    b: MakeKeep,
    c: MakeTrash,
    d: FindKeep,
    e: FindTrash,
    path: Result<Vec<u8>, std::io::Error>,
    made: Result<(), std::io::Error>,
    ends: (ResolveStep, ResolveStep, ResolveStep, ResolveStep, ResolveStep, ResolveStep),
)
    requires
        call_ensures(RawConfig::resolve, (raw,), ends.0),
        call_ensures(FindSource::found, (a, path), ends.1),
        call_ensures(MakeKeep::created, (b, made), ends.2),
        call_ensures(MakeTrash::created, (c, made), ends.3),
        call_ensures(FindKeep::found, (d, path), ends.4),
        call_ensures(FindTrash::found, (e, path), ends.5),
    ensures
        ends.0 is FindSource,
        path is Ok ==> ends.1 is MakeKeep && ends.4 is FindTrash && ends.5 is Done,
        made is Ok ==> ends.2 is MakeTrash && ends.3 is FindKeep,
        made matches Err(cause) ==> {
            &&& ends.2 == ResolveStep::Failed(ResolveError::NotCreated(cause))
            &&& ends.3 == ResolveStep::Failed(ResolveError::NotCreated(cause))
        },
        path matches Err(cause) ==> {
            &&& ends.1 matches ResolveStep::Failed(ResolveError::NotCanonical { dir, error }) && dir@
                == a.raw().source_dir@ && error == cause
            &&& ends.4 matches ResolveStep::Failed(ResolveError::NotCanonical { dir, error }) && dir@
                == d.raw().keep_dir@ && error == cause
            &&& ends.5 matches ResolveStep::Failed(ResolveError::NotCanonical { dir, error }) && dir@
                == e.raw().trash_dir@ && error == cause
        },
{
}

/// The sentences that tell why the configuration is rejected, around the value as
/// `{:?}` shows it.
pub proof fn rejected_settings_are_told(e: ConfigError, r: String)
    requires
        call_ensures(ConfigError::message, (&e,), r),
    ensures
        r@ == (match e {
            ConfigError::InvalidOrder(v) => "ORDER must be 'asc' or 'desc', got "@
                + debug_text(v@),
            ConfigError::EmptyExtensions => "EXTENSIONS resolved to an empty set"@,
            ConfigError::InvalidUndoDepth(v) => "UNDO_DEPTH must be a positive integer, got "@
                + debug_text(v@),
            ConfigError::InvalidBindAddr(v) => "BIND_ADDR is not a valid socket address: "@
                + debug_text(v@),
            ConfigError::InvalidTzOffset(v) =>
                "TZ_OFFSET_HOURS must be an integer between -26 and 26, got "@
                + debug_text(v@),
        }),
{
}

/// What is told of a directory that cannot be resolved: the system's wording, and
/// the directory where it has no canonical path.
pub proof fn unresolved_directory_is_told(e: ResolveError, r: String)
    requires
        call_ensures(ResolveError::message, (&e,), r),
    ensures
        match e {
            ResolveError::NotCreated(cause) => worded(cause, r@),
            ResolveError::NotCanonical { dir, error } => exists|detail: Seq<char>|
                worded(error, detail) && r@ == #[trigger] ("cannot canonicalize "@
                    + shown(dir@) + ": "@ + detail),
        },
{
    let detail = choose|detail: Seq<char>|
        worded(e.cause(), detail) && r@ == #[trigger] e.sentence(detail);
    match e {
        ResolveError::NotCanonical { dir, error } => {
            assert(r@ == "cannot canonicalize "@ + shown(dir@) + ": "@ + detail);
        },
        _ => {},
    }
}

/// A text is in a list if and only if it is one of its items.
pub proof fn list_has_its_items(list: Vec<String>, t: &str, r: bool)
    requires
        call_ensures(has_text, (&list, t), r),
    ensures
        r <==> exists|i: int| 0 <= i < list@.len() && (#[trigger] list@[i])@ == t@,
{
    let all = views(list@);
    if r {
        let i = choose|i: int| 0 <= i < all.len() && all[i] == t@;
        assert(list@[i]@ == t@);
    }
    if exists|i: int| 0 <= i < list@.len() && (#[trigger] list@[i])@ == t@ {
        let i = choose|i: int| 0 <= i < list@.len() && (#[trigger] list@[i])@ == t@;
        assert(all[i] == t@);
    }
}

/// The address is that of the variable, or that of all interfaces at port 8080.
pub proof fn address_has_a_default(v: Vars, r: &str)
    requires
        call_ensures(Vars::bind_text, (&v,), r),
    ensures
        r@ == (match given(v.bind_addr) {
            Some(a) => a,
            None => "0.0.0.0:8080"@,
        }),
{
}

/// Around any wording, the sentences are those that are told.
pub proof fn sentences_go_around_the_wording(
    e: ConfigError,
    f: ResolveError,
    detail: &str,
    r: String,
    s: String,
)
    requires
        call_ensures(ConfigError::message_with, (&e, detail), r),
        call_ensures(ResolveError::message_with, (&f, detail), s),
    ensures
        r@ == (match e {
            ConfigError::InvalidOrder(_) => "ORDER must be 'asc' or 'desc', got "@ + detail@,
            ConfigError::EmptyExtensions => "EXTENSIONS resolved to an empty set"@,
            ConfigError::InvalidUndoDepth(_) => "UNDO_DEPTH must be a positive integer, got "@
                + detail@,
            ConfigError::InvalidBindAddr(_) => "BIND_ADDR is not a valid socket address: "@
                + detail@,
            ConfigError::InvalidTzOffset(_) =>
                "TZ_OFFSET_HOURS must be an integer between -26 and 26, got "@ + detail@,
        }),
        s@ == (match f {
            ResolveError::NotCreated(_) => detail@,
            ResolveError::NotCanonical { dir, .. } => "cannot canonicalize "@ + shown(dir@) + ": "@
                + detail@,
        }),
{
}

/// The extensions are listed by their bytes, smallest first, and none comes twice,
/// both as they are read and in the configuration.
pub proof fn extensions_are_in_order(
    s: &str,
    list: Vec<String>,
    v: Vars,
    addr_ok: bool,
    c: RawConfig,
    i: int,
    j: int,
)
    requires
        call_ensures(parse_extensions, (s,), Ok(list)),
        call_ensures(RawConfig::from_vars, (&v, addr_ok), Ok(c)),
    ensures
        list@.len() > 0,
        0 <= i < j < list@.len() ==> text_lt(list@[i]@, list@[j]@),
        c.extensions@.len() > 0,
        0 <= i < j < c.extensions@.len() ==> text_lt(c.extensions@[i]@, c.extensions@[j]@),
{
    if 0 <= i < j < list@.len() {
        assert(views(list@)[i] == list@[i]@ && views(list@)[j] == list@[j]@);
    }
    if 0 <= i < j < c.extensions@.len() {
        let all = views(c.extensions@);
        assert(all[i] == c.extensions@[i]@ && all[j] == c.extensions@[j]@);
    }
}

} // verus!
