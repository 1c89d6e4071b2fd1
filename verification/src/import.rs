//! The import-path resolver: parses one import declaration into one or more
//! [`Dependency`] records, supporting multi-target groups, aliasing and
//! nested dotted/bracketed paths, degrading to a sentinel record on
//! malformed input instead of aborting.

use vstd::prelude::*;
use vstd::string::*;

use crate::concat::{spec_lead_parts, spec_raw_concat, spec_slash_join, Concat};
use crate::engine::LineContext;
use crate::find::{scan_from, Finder};
use crate::strip::{spec_colon_strip, Strip};
use crate::text::{has_prefix, spec_split, spec_trim, split_str, trim_str};

verus! {

/// Spec-level image of one resolved import target.
#[verifier::ext_equal]
pub ghost struct DepModel {
    pub path: Option<Seq<char>>,
    pub anchor: Option<Seq<char>>,
    pub alias: Option<Seq<char>>,
}

/// One resolved import: slash-joined namespace prefix, leaf symbol name,
/// and optional alias.
#[derive(Debug)]
pub struct Dependency {
    pub path: Option<String>,
    pub anchor: Option<String>,
    pub alias: Option<String>,
}

/// Spec view of an optional owned string.
pub open spec fn opt_str(o: Option<String>) -> Option<Seq<char>> {
    match o {
        Some(s) => Some(s@),
        None => None,
    }
}

impl View for Dependency {
    type V = DepModel;

    open spec fn view(&self) -> DepModel {
        DepModel { path: opt_str(self.path), anchor: opt_str(self.anchor), alias: opt_str(self.alias) }
    }
}

/// The models of a run of dependency records, in order.
pub open spec fn deps_model(v: Seq<Dependency>) -> Seq<DepModel> {
    v.map_values(|d: Dependency| d@)
}

/// An intermediate anchor/target pair.
#[derive(Debug)]
pub struct Element {
    pub anchor: Option<String>,
    pub target: Option<String>,
}

/// Accumulates the dependencies resolved from the import section.
#[derive(Debug)]
pub struct Import {
    pub data_list: Vec<Dependency>,
}

/// The well-known placeholder emitted for a malformed import target.
pub open spec fn sentinel_dep() -> DepModel {
    DepModel { path: Some("/unknown"@), anchor: Some("/unknown"@), alias: Some("unknown"@) }
}

/// One target without brackets: an optional ` as ` alias around a name whose
/// surrounding quotes are stripped; a sentinel when the name is empty or
/// more than one ` as ` separator appears.
pub open spec fn spec_atom_parse(s: Seq<char>) -> DepModel {
    let tc = spec_split(s, " as "@);
    if tc.len() == 1 {
        let anchor = spec_trim(spec_colon_strip(spec_trim(tc[0])));
        if anchor.len() < 1 {
            sentinel_dep()
        } else {
            DepModel { path: None, anchor: Some(anchor), alias: None }
        }
    } else if tc.len() == 2 {
        let target = spec_trim(spec_colon_strip(spec_trim(tc[0])));
        let alias = spec_trim(spec_colon_strip(spec_trim(tc[1])));
        if target.len() < 1 {
            sentinel_dep()
        } else {
            DepModel { path: None, anchor: Some(target), alias: Some(alias) }
        }
    } else {
        sentinel_dep()
    }
}

/// Each listed piece, trimmed, parsed as an atom, in order.
pub open spec fn spec_mul_items(parts: Seq<Seq<char>>) -> Seq<DepModel>
    decreases parts.len(),
{
    if parts.len() == 0 {
        Seq::empty()
    } else {
        spec_mul_items(parts.drop_last()).push(spec_atom_parse(spec_trim(parts.last())))
    }
}

/// The comma-separated targets of a bracket group, each parsed as an atom.
pub open spec fn spec_mul_parse(s: Seq<char>) -> Seq<DepModel> {
    spec_mul_items(spec_split(s, ","@))
}

/// Every record given the same path.
pub open spec fn spec_with_path(ds: Seq<DepModel>, path: Seq<char>) -> Seq<DepModel>
    decreases ds.len(),
{
    if ds.len() == 0 {
        Seq::empty()
    } else {
        spec_with_path(ds.drop_last(), path).push(
            DepModel { path: Some(path), anchor: ds.last().anchor, alias: ds.last().alias },
        )
    }
}

/// Every record that already carries a path gets it extended by `prefix`.
pub open spec fn spec_with_prefix(ds: Seq<DepModel>, prefix: Seq<char>) -> Seq<DepModel>
    decreases ds.len(),
{
    if ds.len() == 0 {
        Seq::empty()
    } else {
        let d = ds.last();
        let nd = match d.path {
            Some(p) => DepModel {
                path: Some(spec_raw_concat(prefix, "/"@, p)),
                anchor: d.anchor,
                alias: d.alias,
            },
            None => d,
        };
        spec_with_prefix(ds.drop_last(), prefix).push(nd)
    }
}

/// One dotted target under `prefix`: the part before the first dot extends
/// the path; the rest is a bracket group or a single atom.
pub open spec fn spec_target_parse(s: Seq<char>, prefix: Seq<char>) -> Seq<DepModel> {
    let tc = spec_split(s, "."@);
    if tc.len() < 2 {
        seq![sentinel_dep()]
    } else {
        let anchor = tc[0];
        let tar = s.skip(anchor.len() as int + 1);
        let path = spec_raw_concat(prefix, "/"@, anchor);
        if tar.len() >= 1 && tar.first() == '{' && s.len() >= 1 && s.last() == '}' {
            if tar.len() < 3 {
                seq![sentinel_dep()]
            } else {
                spec_with_path(spec_mul_parse(tar.subrange(1, tar.len() - 1)), path)
            }
        } else {
            let d = spec_atom_parse(tar);
            seq![DepModel { path: Some(path), anchor: d.anchor, alias: d.alias }]
        }
    }
}

/// The top-level comma-separated dotted targets of a bracket group's body,
/// found by scanning past each dot and any braced group that follows it.
/// A scan that runs off the end of the text fails.
pub open spec fn spec_line_seg_from(s: Seq<char>, i: int) -> Result<Seq<Seq<char>>, ()>
    decreases s.len() - i,
    when 0 <= i < s.len()
    via spec_line_seg_from_decreases
{
    let a = scan_from(s, i, ' ', false);
    let d = scan_from(s, a, '.', true);
    if d >= s.len() {
        Err(())
    } else {
        let p2 = scan_from(s, d + 1, ' ', false);
        if p2 >= s.len() {
            Err(())
        } else if s[p2] == '{' {
            let q = scan_from(s, p2 + 1, '}', true);
            if q >= s.len() {
                Err(())
            } else {
                let p4 = scan_from(s, q + 1, ' ', false);
                if p4 >= s.len() {
                    Ok(seq![spec_trim(s.subrange(i, p4))])
                } else if s[p4] != ',' {
                    Err(())
                } else {
                    let part = spec_trim(s.subrange(i, p4));
                    if p4 + 1 < s.len() {
                        match spec_line_seg_from(s, p4 + 1) {
                            Ok(rest) => Ok(seq![part] + rest),
                            Err(e) => Err(e),
                        }
                    } else {
                        Ok(seq![part])
                    }
                }
            }
        } else {
            let g = scan_from(s, p2, ',', true);
            if g < s.len() {
                let part = spec_trim(s.subrange(i, g));
                if g + 1 < s.len() {
                    match spec_line_seg_from(s, g + 1) {
                        Ok(rest) => Ok(seq![part] + rest),
                        Err(e) => Err(e),
                    }
                } else {
                    Ok(seq![part])
                }
            } else {
                Ok(seq![spec_trim(s.subrange(i, s.len() as int))])
            }
        }
    }
}

#[via_fn]
proof fn spec_line_seg_from_decreases(s: Seq<char>, i: int) {
    crate::find::lemma_scan_from_bounds(s, i, ' ', false);
    let a = scan_from(s, i, ' ', false);
    crate::find::lemma_scan_from_bounds(s, a, '.', true);
    let d = scan_from(s, a, '.', true);
    if d < s.len() {
        crate::find::lemma_scan_from_bounds(s, d + 1, ' ', false);
        let p2 = scan_from(s, d + 1, ' ', false);
        if p2 < s.len() {
            if s[p2] == '{' {
                crate::find::lemma_scan_from_bounds(s, p2 + 1, '}', true);
                let q = scan_from(s, p2 + 1, '}', true);
                if q < s.len() {
                    crate::find::lemma_scan_from_bounds(s, q + 1, ' ', false);
                }
            } else {
                crate::find::lemma_scan_from_bounds(s, p2, ',', true);
            }
        }
    }
}

/// The segmentation of a whole bracket-group body.
pub open spec fn spec_line_seg(s: Seq<char>) -> Result<Seq<Seq<char>>, ()> {
    if s.len() == 0 {
        Ok(Seq::empty())
    } else {
        spec_line_seg_from(s, 0)
    }
}

/// Every segmented target resolved with an empty prefix, in order.
pub open spec fn spec_mul_anchor_items(toks: Seq<Seq<char>>) -> Seq<DepModel>
    decreases toks.len(),
{
    if toks.len() == 0 {
        Seq::empty()
    } else {
        spec_mul_anchor_items(toks.drop_last()) + spec_target_parse(
            toks.last(),
            Seq::<char>::empty(),
        )
    }
}

/// A bracket group's body resolved target by target; nothing when the body
/// cannot be segmented.
pub open spec fn spec_mul_anchor(s: Seq<char>) -> Seq<DepModel> {
    match spec_line_seg(s) {
        Ok(toks) => spec_mul_anchor_items(toks),
        Err(_) => Seq::empty(),
    }
}

/// The last import segment resolved under `prefix`: a braced group of dotted
/// targets, or one dotted target.
pub open spec fn spec_impl_parse(s: Seq<char>, prefix: Seq<char>) -> Seq<DepModel> {
    if s.len() >= 1 && s.first() == '{' && s.last() == '}' {
        if s.len() < 3 {
            seq![sentinel_dep()]
        } else {
            spec_with_prefix(spec_mul_anchor(s.subrange(1, s.len() - 1)), prefix)
        }
    } else {
        spec_target_parse(s, prefix)
    }
}

/// A whole import body: every slash segment but the last joins into the
/// prefix; the last resolves into the dependency records.
pub open spec fn spec_plain_parse(parts: Seq<Seq<char>>) -> Seq<DepModel>
    recommends
        parts.len() >= 1,
{
    let prefix = spec_slash_join(
        spec_lead_parts(parts, parts.len() - 1).push(Seq::<char>::empty()),
    );
    spec_impl_parse(parts.last(), prefix)
}

/// One import declaration body resolved into its dependency records.
pub open spec fn spec_extract(s: Seq<char>) -> Seq<DepModel> {
    spec_plain_parse(spec_split(s, "/"@))
}

/// What one raw line of the import section contributes: nothing for blank
/// lines, comment lines and lines without the `use ` keyword; the resolution
/// of the rest of the line otherwise.
pub open spec fn spec_import_line(line: Seq<char>) -> Seq<DepModel> {
    let t = spec_trim(line);
    if t.len() == 0 {
        Seq::empty()
    } else if t.len() >= "//"@.len() && t.subrange(0, "//"@.len() as int) == "//"@ {
        Seq::empty()
    } else if !(t.len() >= "use "@.len() && t.subrange(0, "use "@.len() as int) == "use "@) {
        Seq::empty()
    } else {
        spec_extract(t.skip("use "@.len() as int))
    }
}

/// What a run of raw lines contributes, in order.
pub open spec fn spec_import_lines(segs: Seq<Seq<char>>) -> Seq<DepModel>
    decreases segs.len(),
{
    if segs.len() == 0 {
        Seq::empty()
    } else {
        spec_import_lines(segs.drop_last()) + spec_import_line(segs.last())
    }
}

/// A fresh sentinel record for a malformed target.
fn unknown_dependency() -> (r: Dependency)
    ensures
        r@ == sentinel_dep(),
{
    Dependency {
        path: Some(String::from_str("/unknown")),
        anchor: Some(String::from_str("/unknown")),
        alias: Some(String::from_str("unknown")),
    }
}

/// A copy of an optional owned string.
pub(crate) fn clone_opt(o: &Option<String>) -> (r: Option<String>)
    ensures
        opt_str(r) == opt_str(*o),
{
    match o {
        Some(s) => Some(s.clone()),
        None => None,
    }
}

impl Import {
    /// An import accumulator with no resolved records yet.
    pub fn init() -> (r: Self)
        ensures
            r.data_list@.len() == 0,
    {
        Import { data_list: Vec::new() }
    }

    /// Pairs a target's resolution with an alias; the resolution itself is
    /// the fixed placeholder that `plain_target_parse` supplies.
    pub fn plain_alias_parse(&mut self, tc: Vec<&str>) -> (r: Result<Dependency, String>)
        requires
            tc@.len() >= 2,
        ensures
            *final(self) == *old(self),
            r is Ok,
            r->Ok_0@ == (DepModel {
                path: Some("/unknown"@),
                anchor: Some("unknown"@),
                alias: Some(tc@[1]@),
            }),
    {
        let dst = tc[0];
        let alias = tc[1];

        let ele = self.plain_target_parse(dst).unwrap();
        let anc = ele.anchor;
        match anc {
            Some(anchor) => {
                let dep1 = Dependency {
                    path: Some(anchor),
                    anchor: ele.target,
                    alias: Some(String::from_str(alias)),
                };
                Ok(dep1)
            },
            None => {
                let dep1 = unknown_dependency();
                Ok(dep1)
            },
        }
    }

    /// A placeholder resolution: every destination maps to the fixed
    /// unknown element.
    pub fn plain_target_parse(&mut self, _dest: &str) -> (r: Result<Element, String>)
        ensures
            *final(self) == *old(self),
            r is Ok,
            r->Ok_0.anchor is Some && r->Ok_0.anchor->0@ == "/unknown"@,
            r->Ok_0.target is Some && r->Ok_0.target->0@ == "unknown"@,
    {
        let dep = Element {
            anchor: Some(String::from_str("/unknown")),
            target: Some(String::from_str("unknown")),
        };
        Ok(dep)
    }

    /// Cuts a bracket group's body at its top-level commas, keeping the
    /// commas inside a braced sub-group; fails where a dot or a closing
    /// brace is missing.
    pub fn line_seg(s: &str) -> (r: Result<Vec<String>, String>)
        ensures
            match r {
                Ok(v) => spec_line_seg(s@) == Ok::<Seq<Seq<char>>, ()>(v.deep_view()),
                Err(_) => spec_line_seg(s@) is Err,
            },
    {
        let len = s.unicode_len();
        let mut out_data: Vec<String> = Vec::new();
        let mut index_now: usize = 0;
        if len == 0 {
            proof {
                assert(out_data.deep_view() =~= Seq::<Seq<char>>::empty());
            }
            return Ok(out_data);
        }
        while index_now < len
            invariant
                len == s@.len(),
                len > 0,
                0 <= index_now <= len,
                index_now < len ==> match spec_line_seg_from(s@, index_now as int) {
                    Ok(rest) => spec_line_seg(s@) == Ok::<Seq<Seq<char>>, ()>(
                        out_data.deep_view() + rest,
                    ),
                    Err(e) => spec_line_seg(s@) is Err,
                },
                index_now == len ==> spec_line_seg(s@) == Ok::<Seq<Seq<char>>, ()>(
                    out_data.deep_view(),
                ),
            decreases len - index_now,
        {
            let ghost i0 = index_now as int;
            let next_index = Strip::next_strip(s, index_now, ' ', true).unwrap();
            let a = index_now + next_index;
            proof {
                crate::find::lemma_scan_from_value(s@, i0, ' ', false, a as int);
            }
            let c_rel = Finder::next_point(s, a, '.', true).unwrap();
            let d = a + c_rel;
            proof {
                crate::find::lemma_scan_from_value(s@, a as int, '.', true, d as int);
            }
            if d >= len {
                return Err(String::from_str("Invalid"));
            }
            let next2 = Strip::next_strip(s, d + 1, ' ', true).unwrap();
            let p2 = d + 1 + next2;
            proof {
                crate::find::lemma_scan_from_value(s@, d + 1, ' ', false, p2 as int);
            }
            if p2 >= len {
                return Err(String::from_str("Invalid"));
            }
            if s.get_char(p2) == '{' {
                let gap_rel = Finder::next_point(s, p2 + 1, '}', true).unwrap();
                let q = p2 + 1 + gap_rel;
                proof {
                    crate::find::lemma_scan_from_value(s@, p2 + 1, '}', true, q as int);
                }
                if q >= len {
                    return Err(String::from_str("Invalid"));
                }
                let next3 = Strip::next_strip(s, q + 1, ' ', true).unwrap();
                let p4 = q + 1 + next3;
                proof {
                    crate::find::lemma_scan_from_value(s@, q + 1, ' ', false, p4 as int);
                }
                if p4 >= len {
                    let wait_str = trim_str(s.substring_char(index_now, p4));
                    let ghost old_deep = out_data.deep_view();
                    out_data.push(wait_str);
                    proof {
                        assert(out_data.deep_view() =~= old_deep.push(wait_str@));
                        assert(old_deep + seq![wait_str@] =~= out_data.deep_view());
                    }
                    index_now = p4;
                } else {
                    if s.get_char(p4) != ',' {
                        return Err(String::from_str("Invalid"));
                    }
                    let wait_str = trim_str(s.substring_char(index_now, p4));
                    let ghost old_deep = out_data.deep_view();
                    out_data.push(wait_str);
                    proof {
                        assert(out_data.deep_view() =~= old_deep.push(wait_str@));
                        if p4 + 1 < len {
                            match spec_line_seg_from(s@, p4 + 1) {
                                Ok(rest) => {
                                    assert(old_deep + (seq![wait_str@] + rest)
                                        =~= out_data.deep_view() + rest);
                                },
                                Err(e) => {},
                            }
                        } else {
                            assert(old_deep + seq![wait_str@] =~= out_data.deep_view());
                        }
                    }
                    index_now = p4 + 1;
                }
            } else {
                let gap_rel = Finder::next_point(s, p2, ',', true).unwrap();
                let g = p2 + gap_rel;
                proof {
                    crate::find::lemma_scan_from_value(s@, p2 as int, ',', true, g as int);
                }
                if g < len {
                    let wait_str = trim_str(s.substring_char(index_now, g));
                    let ghost old_deep = out_data.deep_view();
                    out_data.push(wait_str);
                    proof {
                        assert(out_data.deep_view() =~= old_deep.push(wait_str@));
                        if g + 1 < len {
                            match spec_line_seg_from(s@, g + 1) {
                                Ok(rest) => {
                                    assert(old_deep + (seq![wait_str@] + rest)
                                        =~= out_data.deep_view() + rest);
                                },
                                Err(e) => {},
                            }
                        } else {
                            assert(old_deep + seq![wait_str@] =~= out_data.deep_view());
                        }
                    }
                    index_now = g + 1;
                } else {
                    let wait_str = trim_str(s.substring_char(index_now, len));
                    let ghost old_deep = out_data.deep_view();
                    out_data.push(wait_str);
                    proof {
                        assert(out_data.deep_view() =~= old_deep.push(wait_str@));
                        assert(old_deep + seq![wait_str@] =~= out_data.deep_view());
                    }
                    index_now = len;
                }
            }
        }
        Ok(out_data)
    }

    /// Resolves every top-level target of a bracket group's body, each under
    /// an empty prefix; a body that cannot be segmented yields nothing.
    pub fn plain_mul_anchor_parse(&mut self, tc0: String) -> (r: Result<Vec<Dependency>, String>)
        ensures
            final(self).data_list == old(self).data_list,
            r is Ok,
            deps_model(r->Ok_0@) == spec_mul_anchor(tc0@),
    {
        let mut out_data: Vec<Dependency> = Vec::new();
        let tokens = Import::line_seg(tc0.as_str());
        match tokens {
            Ok(tc) => {
                let ghost toks = tc.deep_view();
                let mut i: usize = 0;
                proof {
                    assert(toks.take(0) =~= Seq::<Seq<char>>::empty());
                    assert(deps_model(out_data@) =~= spec_mul_anchor_items(toks.take(0)));
                }
                while i < tc.len()
                    invariant
                        self.data_list == old(self).data_list,
                        toks == tc.deep_view(),
                        0 <= i <= tc@.len(),
                        deps_model(out_data@) == spec_mul_anchor_items(toks.take(i as int)),
                    decreases tc@.len() - i,
                {
                    let target = tc[i].clone();
                    let mut mul_dep = self.plain_parse_target(target, String::new()).unwrap();
                    let ghost md = mul_dep@;
                    let ghost before = out_data@;
                    out_data.append(&mut mul_dep);
                    proof {
                        assert(toks.take(i + 1).drop_last() =~= toks.take(i as int));
                        assert(toks.take(i + 1).last() == toks[i as int]);
                        assert(deps_model(before + md) =~= deps_model(before) + deps_model(md));
                        assert(deps_model(out_data@) =~= spec_mul_anchor_items(toks.take(i + 1)));
                    }
                    i += 1;
                }
                proof {
                    assert(toks.take(tc@.len() as int) =~= toks);
                }
            },
            Err(_) => {
                proof {
                    assert(deps_model(out_data@) =~= Seq::<DepModel>::empty());
                }
            },
        }
        Ok(out_data)
    }

    /// Cuts a braced body at every comma and resolves each piece, trimmed,
    /// as one atom.
    pub fn plain_mul_parse(&mut self, tc0: String) -> (r: Result<Vec<Dependency>, String>)
        ensures
            *final(self) == *old(self),
            r is Ok,
            deps_model(r->Ok_0@) == spec_mul_parse(tc0@),
    {
        proof {
            reveal_strlit(",");
        }
        let tc = split_str(tc0.as_str(), ",");
        let ghost parts = spec_split(tc0@, ","@);
        let mut out_data: Vec<Dependency> = Vec::new();
        let mut i: usize = 0;
        proof {
            assert(parts.take(0) =~= Seq::<Seq<char>>::empty());
            assert(deps_model(out_data@) =~= spec_mul_items(parts.take(0)));
        }
        while i < tc.len()
            invariant
                *self == *old(self),
                parts == tc.deep_view(),
                0 <= i <= tc@.len(),
                deps_model(out_data@) == spec_mul_items(parts.take(i as int)),
            decreases tc@.len() - i,
        {
            let line = trim_str(tc[i].as_str());
            let dep = self.plain_atom_parse(line).unwrap();
            let ghost before = out_data@;
            out_data.push(dep);
            proof {
                assert(parts.take(i + 1).drop_last() =~= parts.take(i as int));
                assert(parts.take(i + 1).last() == parts[i as int]);
                assert(deps_model(out_data@) =~= deps_model(before).push(dep@));
            }
            i += 1;
        }
        proof {
            assert(parts.take(tc@.len() as int) =~= parts);
        }
        Ok(out_data)
    }

    /// Resolves one atom: an optional ` as ` alias around a quoted or plain
    /// name; a sentinel for an empty name or a doubled separator.
    pub fn plain_atom_parse(&mut self, tc0: String) -> (r: Result<Dependency, String>)
        ensures
            *final(self) == *old(self),
            r is Ok,
            r->Ok_0@ == spec_atom_parse(tc0@),
    {
        proof {
            reveal_strlit(" as ");
        }
        let tc = split_str(tc0.as_str(), " as ");
        let ghost parts = spec_split(tc0@, " as "@);
        let plain_count = tc.len();
        if plain_count == 1 {
            let anchor = trim_str(tc[0].as_str());
            let anchor_new = Strip::colon_strip(anchor);
            let anchor_real = trim_str(anchor_new.as_str());
            if anchor_real.as_str().unicode_len() < 1 {
                let dep = unknown_dependency();
                return Ok(dep);
            }
            let ele = Dependency { path: None, anchor: Some(anchor_real), alias: None };
            Ok(ele)
        } else if plain_count == 2 {
            let target = trim_str(tc[0].as_str());
            let alias = trim_str(tc[1].as_str());

            let new_target = Strip::colon_strip(target);
            let new_alias = Strip::colon_strip(alias);

            let real_target = trim_str(new_target.as_str());
            let real_alias = trim_str(new_alias.as_str());

            if real_target.as_str().unicode_len() < 1 {
                let dep = unknown_dependency();
                return Ok(dep);
            }
            let dep = Dependency { path: None, anchor: Some(real_target), alias: Some(real_alias) };
            Ok(dep)
        } else {
            let dep = unknown_dependency();
            Ok(dep)
        }
    }

    /// Splits the body at the slashes and resolves the last segment under
    /// the prefix joined from the others.
    pub fn plain_parse(&mut self, tc0: Vec<&str>) -> (r: Result<Vec<Dependency>, String>)
        requires
            tc0@.len() >= 1,
        ensures
            final(self).data_list == old(self).data_list,
            r is Ok,
            deps_model(r->Ok_0@) == spec_plain_parse(tc0.deep_view()),
    {
        let tot_len = tc0.len();
        let prefix = Concat::slash_concat(&tc0, tot_len - 1, String::new());

        let obj = tc0[tot_len - 1];
        let raw_obj = String::from_str(obj);

        self.plain_parse_impl(raw_obj, prefix)
    }

    /// Resolves one dotted target under `prefix`: the name before the first
    /// dot extends the path; what follows is a braced group or one atom.
    pub fn plain_parse_target(&mut self, raw_obj: String, prefix: String) -> (r: Result<
        Vec<Dependency>,
        String,
    >)
        ensures
            final(self).data_list == old(self).data_list,
            r is Ok,
            deps_model(r->Ok_0@) == spec_target_parse(raw_obj@, prefix@),
    {
        proof {
            reveal_strlit(".");
        }
        let tc = split_str(raw_obj.as_str(), ".");
        let ghost parts = spec_split(raw_obj@, "."@);
        let tc_len = tc.len();
        if tc_len < 2 {
            let mut out_data: Vec<Dependency> = Vec::new();
            out_data.push(unknown_dependency());
            proof {
                assert(deps_model(out_data@) =~= seq![sentinel_dep()]);
            }
            return Ok(out_data);
        }
        let anchor = tc[0].clone();
        let anc_len = anchor.as_str().unicode_len();
        let rlen = raw_obj.as_str().unicode_len();
        proof {
            crate::text::lemma_find_pat(raw_obj@, "."@);
            if crate::text::find_pat(raw_obj@, "."@) < 0 {
                assert(parts.len() == 1);
            }
            assert(parts[0] == raw_obj@.take(crate::text::find_pat(raw_obj@, "."@)));
            assert(anc_len as int == crate::text::find_pat(raw_obj@, "."@));
            assert(anc_len + 1 <= rlen);
        }
        let tar_off = anc_len + 1;

        let tar = raw_obj.as_str().substring_char(tar_off, rlen);
        let ghost tarv = raw_obj@.skip(tar_off as int);
        proof {
            assert(tarv =~= raw_obj@.subrange(tar_off as int, rlen as int));
        }
        let tar_len = tar.unicode_len();

        let is_group = tar_len >= 1 && tar.get_char(0) == '{' && raw_obj.as_str().get_char(
            rlen - 1,
        ) == '}';
        let path = Concat::raw_concat(prefix, String::from_str("/"), anchor);
        if is_group {
            if tar_len < 3 {
                let mut out_data: Vec<Dependency> = Vec::new();
                out_data.push(unknown_dependency());
                proof {
                    assert(deps_model(out_data@) =~= seq![sentinel_dep()]);
                }
                return Ok(out_data);
            }
            let mul_tar_obj = String::from_str(tar.substring_char(1, tar_len - 1));
            proof {
                assert(mul_tar_obj@ =~= tarv.subrange(1, tarv.len() - 1));
            }
            let mul_dep = self.plain_mul_parse(mul_tar_obj).unwrap();
            let ghost md = deps_model(mul_dep@);
            let mut out_data: Vec<Dependency> = Vec::new();
            let mut k: usize = 0;
            proof {
                assert(md.take(0) =~= Seq::<DepModel>::empty());
                assert(deps_model(out_data@) =~= spec_with_path(md.take(0), path@));
            }
            while k < mul_dep.len()
                invariant
                    md == deps_model(mul_dep@),
                    0 <= k <= mul_dep@.len(),
                    md.len() == mul_dep@.len(),
                    deps_model(out_data@) == spec_with_path(md.take(k as int), path@),
                decreases mul_dep@.len() - k,
            {
                let d = Dependency {
                    path: Some(path.clone()),
                    anchor: clone_opt(&mul_dep[k].anchor),
                    alias: clone_opt(&mul_dep[k].alias),
                };
                let ghost before = out_data@;
                out_data.push(d);
                proof {
                    assert(md.take(k + 1).drop_last() =~= md.take(k as int));
                    assert(md.take(k + 1).last() == md[k as int]);
                    assert(md[k as int] == mul_dep@[k as int]@);
                    assert(deps_model(out_data@) =~= deps_model(before).push(d@));
                }
                k += 1;
            }
            proof {
                assert(md.take(md.len() as int) =~= md);
            }
            Ok(out_data)
        } else {
            let dep = self.plain_atom_parse(String::from_str(tar)).unwrap();
            let dep2 = Dependency { path: Some(path), anchor: dep.anchor, alias: dep.alias };
            let mut out_data: Vec<Dependency> = Vec::new();
            out_data.push(dep2);
            proof {
                assert(deps_model(out_data@) =~= seq![dep2@]);
            }
            Ok(out_data)
        }
    }

    /// Resolves the last import segment under `prefix`.
    pub fn plain_parse_impl(&mut self, raw_obj: String, prefix: String) -> (r: Result<
        Vec<Dependency>,
        String,
    >)
        ensures
            final(self).data_list == old(self).data_list,
            r is Ok,
            deps_model(r->Ok_0@) == spec_impl_parse(raw_obj@, prefix@),
    {
        let mul_obj = raw_obj.as_str().unicode_len();
        let is_group = mul_obj >= 1 && raw_obj.as_str().get_char(0) == '{'
            && raw_obj.as_str().get_char(mul_obj - 1) == '}';
        if is_group {
            if mul_obj < 3 {
                let mut out_data: Vec<Dependency> = Vec::new();
                out_data.push(unknown_dependency());
                proof {
                    assert(deps_model(out_data@) =~= seq![sentinel_dep()]);
                }
                return Ok(out_data);
            }
            let mul_raw_obj = String::from_str(raw_obj.as_str().substring_char(1, mul_obj - 1));
            let mul_a_dep = self.plain_mul_anchor_parse(mul_raw_obj).unwrap();
            let ghost md = deps_model(mul_a_dep@);
            let mut out_data: Vec<Dependency> = Vec::new();
            let mut k: usize = 0;
            proof {
                assert(md.take(0) =~= Seq::<DepModel>::empty());
                assert(deps_model(out_data@) =~= spec_with_prefix(md.take(0), prefix@));
            }
            while k < mul_a_dep.len()
                invariant
                    md == deps_model(mul_a_dep@),
                    0 <= k <= mul_a_dep@.len(),
                    md.len() == mul_a_dep@.len(),
                    deps_model(out_data@) == spec_with_prefix(md.take(k as int), prefix@),
                decreases mul_a_dep@.len() - k,
            {
                let d0 = &mul_a_dep[k];
                let d = match &d0.path {
                    Some(p) => {
                        let newp = Concat::raw_concat(
                            prefix.clone(),
                            String::from_str("/"),
                            p.clone(),
                        );
                        Dependency {
                            path: Some(newp),
                            anchor: clone_opt(&d0.anchor),
                            alias: clone_opt(&d0.alias),
                        }
                    },
                    None => Dependency {
                        path: None,
                        anchor: clone_opt(&d0.anchor),
                        alias: clone_opt(&d0.alias),
                    },
                };
                let ghost before = out_data@;
                out_data.push(d);
                proof {
                    assert(md.take(k + 1).drop_last() =~= md.take(k as int));
                    assert(md.take(k + 1).last() == md[k as int]);
                    assert(md[k as int] == mul_a_dep@[k as int]@);
                    assert(deps_model(out_data@) =~= deps_model(before).push(d@));
                }
                k += 1;
            }
            proof {
                assert(md.take(md.len() as int) =~= md);
            }
            Ok(out_data)
        } else {
            self.plain_parse_target(raw_obj, prefix)
        }
    }

    /// Splits one declaration body at the slashes and resolves it.
    pub fn alis_simple_process(&mut self, s: &String) -> (r: Result<Vec<Dependency>, String>)
        ensures
            final(self).data_list == old(self).data_list,
            r is Ok,
            deps_model(r->Ok_0@) == spec_extract(s@),
    {
        proof {
            reveal_strlit("/");
        }
        let tc_owned = split_str(s.as_str(), "/");
        let mut tc: Vec<&str> = Vec::new();
        let mut i: usize = 0;
        proof {
            assert(tc.deep_view() =~= tc_owned.deep_view().take(0));
        }
        while i < tc_owned.len()
            invariant
                0 <= i <= tc_owned@.len(),
                tc.deep_view() == tc_owned.deep_view().take(i as int),
            decreases tc_owned@.len() - i,
        {
            let ghost before = tc.deep_view();
            tc.push(tc_owned[i].as_str());
            proof {
                assert(tc.deep_view() =~= before.push(tc_owned@[i as int]@));
                assert(tc_owned.deep_view().take(i + 1) =~= tc_owned.deep_view().take(
                    i as int,
                ).push(tc_owned@[i as int]@));
            }
            i += 1;
        }
        proof {
            assert(tc_owned.deep_view().take(tc_owned@.len() as int) =~= tc_owned.deep_view());
            crate::text::lemma_split_len(s@, "/"@);
        }
        self.plain_parse(tc)
    }

    /// Resolves one declaration body; every body is admitted, so this is
    /// the slash-splitting resolution itself.
    pub fn extract(&mut self, s: &String) -> (r: Result<Vec<Dependency>, String>)
        ensures
            final(self).data_list == old(self).data_list,
            r is Ok,
            deps_model(r->Ok_0@) == spec_extract(s@),
    {
        self.alis_simple_process(s)
    }

    /// Walks one raw line's tokens: blank and comment tokens contribute
    /// nothing, a token without the `use ` keyword is skipped as malformed,
    /// and the rest are resolved and accumulated.
    pub fn parse_item(&mut self, linec: &LineContext)
        ensures
            deps_model(final(self).data_list@) == deps_model(old(self).data_list@)
                + spec_import_lines(linec.seg.deep_view()),
    {
        let ghost segs = linec.seg.deep_view();
        let ghost base = deps_model(old(self).data_list@);
        let mut i: usize = 0;
        proof {
            assert(segs.take(0) =~= Seq::<Seq<char>>::empty());
            assert(base + spec_import_lines(segs.take(0)) =~= base);
        }
        while i < linec.seg.len()
            invariant
                segs == linec.seg.deep_view(),
                base == deps_model(old(self).data_list@),
                0 <= i <= linec.seg@.len(),
                deps_model(self.data_list@) == base + spec_import_lines(segs.take(i as int)),
            decreases linec.seg@.len() - i,
        {
            proof {
                assert(segs.take(i + 1).drop_last() =~= segs.take(i as int));
                assert(segs.take(i + 1).last() == segs[i as int]);
            }
            let rs = trim_str(linec.seg[i].as_str());
            let skip = if rs.as_str().unicode_len() == 0 {
                true
            } else if has_prefix(rs.as_str(), "//") {
                true
            } else if !has_prefix(rs.as_str(), "use ") {
                true
            } else {
                false
            };
            if !skip {
                let use_len = String::from_str("use ").as_str().unicode_len();
                let rs_len = rs.as_str().unicode_len();
                let body = String::from_str(rs.as_str().substring_char(use_len, rs_len));
                proof {
                    assert(body@ =~= rs@.skip("use "@.len() as int));
                }
                let mut deps = self.extract(&body).unwrap();
                let ghost before = deps_model(self.data_list@);
                let ghost dm = deps_model(deps@);
                self.data_list.append(&mut deps);
                proof {
                    assert(deps_model(self.data_list@) =~= before + dm);
                    assert(base + spec_import_lines(segs.take(i + 1)) =~= deps_model(
                        self.data_list@,
                    ));
                }
            } else {
                proof {
                    assert(spec_import_line(segs[i as int]) =~= Seq::<DepModel>::empty());
                    assert(base + spec_import_lines(segs.take(i + 1)) =~= base
                        + spec_import_lines(segs.take(i as int)));
                }
            }
            i += 1;
        }
        proof {
            assert(segs.take(linec.seg@.len() as int) =~= segs);
        }
    }
}

} // verus!
