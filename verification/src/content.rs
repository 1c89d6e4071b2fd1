//! The content-line parser and the passes over the parsed items: parsing a
//! trimmed line into an [`Item`], resolving each item's nearest shallower
//! ancestor, and linking the items into per-node child lists.

use vstd::prelude::*;
use vstd::string::*;

use crate::engine::LineContext;
use crate::find::{scan_from, Finder};
use crate::text::{spec_split, spec_trim, split_str, trim_str};

verus! {

/// Spec-level image of one parsed content line.
#[verifier::ext_equal]
pub ghost struct ItemModel {
    pub level: int,
    pub name: Option<Seq<char>>,
    pub name_macro: Option<Seq<char>>,
    pub dir: Option<Seq<char>>,
    pub relation: Option<Seq<char>>,
    pub rel_macro: Option<Seq<char>>,
    pub index: int,
    pub root: int,
    pub sub_list: Seq<int>,
}

/// One content line: nesting level, primary label and attribute, optional
/// relation, and the positions filled in by the later passes.
#[derive(Debug)]
pub struct Item {
    pub level: usize,
    pub name: Option<String>,
    pub name_macro: Option<String>,
    pub dir: Option<String>,
    pub relation: Option<String>,
    pub rel_macro: Option<String>,

    pub index: usize,
    pub root: usize,

    pub sub_list: Vec<usize>,
}

impl View for Item {
    type V = ItemModel;

    open spec fn view(&self) -> ItemModel {
        ItemModel {
            level: self.level as int,
            name: crate::import::opt_str(self.name),
            name_macro: crate::import::opt_str(self.name_macro),
            dir: crate::import::opt_str(self.dir),
            relation: crate::import::opt_str(self.relation),
            rel_macro: crate::import::opt_str(self.rel_macro),
            index: self.index as int,
            root: self.root as int,
            sub_list: self.sub_list@.map_values(|x: usize| x as int),
        }
    }
}

/// The models of a run of items, in order.
pub open spec fn items_model(v: Seq<Item>) -> Seq<ItemModel> {
    v.map_values(|it: Item| it@)
}

/// A split of one trimmed entity into its primary token and an optional
/// trailing token.
#[derive(Debug)]
pub struct Entity {
    pub index: usize,
    pub body: Option<String>,
    pub attr: Option<String>,
    pub level: usize,
    pub root: usize,
}

/// Where an item stands while the passes run.
#[derive(Debug, PartialEq, Eq, Structural)]
pub enum ItemStatus {
    ItemWaitRoot,
    ItemWaitLeaf,
}

/// The content accumulator: the item arena, indexed by position, with a
/// synthetic sentinel at position zero.
#[derive(Debug)]
pub struct Content {
    pub current_level: usize,
    pub data_list: Vec<Item>,
}

/// The depth-indexed ancestor table of the level resolver: position `d`
/// holds the most recently accepted item at depth `d - 1`.
pub struct LevelTable {
    pub table: Vec<usize>,
    pub current_level: usize,
}

/// The item every fresh line starts from: no labels, level and positions
/// all zero, no children.
pub open spec fn blank_item() -> ItemModel {
    ItemModel {
        level: 0,
        name: None,
        name_macro: None,
        dir: None,
        relation: None,
        rel_macro: None,
        index: 0,
        root: 0,
        sub_list: Seq::empty(),
    }
}

/// The primary token of an entity: what stands before the first space of
/// the trimmed text, itself trimmed; absent when empty.
pub open spec fn spec_element_body(s: Seq<char>) -> Option<Seq<char>> {
    let t = spec_trim(s);
    let cut = scan_from(t, 0, ' ', true);
    let body = spec_trim(t.take(cut));
    if body.len() > 0 {
        Some(body)
    } else {
        None
    }
}

/// The trailing token of an entity: what stands after the primary token,
/// trimmed; absent when empty.
pub open spec fn spec_element_attr(s: Seq<char>) -> Option<Seq<char>> {
    let t = spec_trim(s);
    let cut = scan_from(t, 0, ' ', true);
    let body = spec_trim(t.take(cut));
    if body.len() < t.len() {
        let attr = spec_trim(t.skip(body.len() as int));
        if attr.len() > 0 {
            Some(attr)
        } else {
            None
        }
    } else {
        None
    }
}

/// One of the three relation markers.
pub open spec fn is_rel_sym(c: char) -> bool {
    c == '+' || c == '-' || c == '*'
}

/// Position of the last relation symbol of `s`, `-1` when there is none.
pub open spec fn last_sym_pos(s: Seq<char>) -> int
    decreases s.len(),
{
    if s.len() == 0 {
        -1
    } else if is_rel_sym(s.last()) {
        s.len() - 1
    } else {
        last_sym_pos(s.drop_last())
    }
}

/// Position of the symbol of the first space-delimited relation window of
/// `s`, `-1` when there is none.
pub open spec fn first_spaced_sym(s: Seq<char>) -> int
    decreases s.len(),
{
    if s.len() < 3 {
        -1
    } else if s[0] == ' ' && is_rel_sym(s[1]) && s[2] == ' ' {
        1
    } else {
        let r = first_spaced_sym(s.drop_first());
        if r < 0 {
            -1
        } else {
            r + 1
        }
    }
}

/// A top-level line parsed into an item: one token gives the name alone,
/// two give name and attribute, more are a hard error.
pub open spec fn spec_root_item(s: Seq<char>) -> Result<ItemModel, Seq<char>> {
    let tc = spec_split(s, " "@);
    if tc.len() > 2 {
        Err("Invalid"@)
    } else {
        Ok(
            ItemModel {
                name: Some(spec_trim(tc[0])),
                name_macro: if tc.len() == 2 {
                    Some(spec_trim(tc[1]))
                } else {
                    None
                },
                ..blank_item()
            },
        )
    }
}

/// `s` opens with the two-space indent of a nested line.
pub open spec fn has_indent(s: Seq<char>) -> bool {
    s.len() >= 2 && s[0] == ' ' && s[1] == ' '
}

/// What one content line parses into: one item for a well-formed line,
/// nothing for a line that soft-fails (odd indent, empty relation group,
/// relation symbol not space-delimited), an error for a top-level line of
/// more than two tokens.
pub open spec fn spec_parse_plain(s: Seq<char>) -> Result<Seq<ItemModel>, Seq<char>> {
    if !has_indent(s) {
        match spec_root_item(s) {
            Ok(it) => Ok(seq![it]),
            Err(e) => Err(e),
        }
    } else {
        let spaces = scan_from(s, 0, ' ', false);
        if spaces % 2 != 0 {
            Ok(Seq::empty())
        } else {
            let level = spaces / 2;
            if last_sym_pos(s) < 0 {
                Ok(
                    seq![
                        ItemModel {
                            level,
                            name: spec_element_body(spec_trim(s)),
                            name_macro: spec_element_attr(spec_trim(s)),
                            ..blank_item()
                        },
                    ],
                )
            } else {
                let p = last_sym_pos(s);
                let raw_name = spec_trim(s.take(p));
                let raw_rel = spec_trim(s.skip(p + 1));
                if raw_name.len() == 0 || raw_rel.len() == 0 {
                    Ok(Seq::empty())
                } else if first_spaced_sym(s) < 0 {
                    Ok(Seq::empty())
                } else {
                    Ok(
                        seq![
                            ItemModel {
                                level,
                                name: spec_element_body(raw_name),
                                name_macro: spec_element_attr(raw_name),
                                dir: Some(seq![s[first_spaced_sym(s)]]),
                                relation: spec_element_body(raw_rel),
                                rel_macro: spec_element_attr(raw_rel),
                                ..blank_item()
                            },
                        ],
                    )
                }
            }
        }
    }
}

/// The nesting level the parser records after one line: zero after an
/// accepted top-level line, the line's own level after an evenly indented
/// line, unchanged otherwise.
pub open spec fn spec_new_level(s: Seq<char>, old_level: int) -> int {
    if !has_indent(s) {
        if spec_root_item(s) is Err {
            old_level
        } else {
            0
        }
    } else {
        let spaces = scan_from(s, 0, ' ', false);
        if spaces % 2 != 0 {
            old_level
        } else {
            spaces / 2
        }
    }
}

/// What a run of raw content lines contributes: blank lines and comment
/// lines are skipped, the rest parse in order; the first hard error stops
/// the run, keeping the items parsed before it.
pub open spec fn spec_content_lines(segs: Seq<Seq<char>>, level: int) -> (Result<
    (Seq<ItemModel>, int),
    Seq<char>,
>)
    decreases segs.len(),
{
    if segs.len() == 0 {
        Ok((Seq::empty(), level))
    } else {
        let line = segs.first();
        if line.len() == 0 || (line.len() >= "//"@.len() && line.subrange(
            0,
            "//"@.len() as int,
        ) == "//"@) {
            spec_content_lines(segs.drop_first(), level)
        } else {
            match spec_parse_plain(line) {
                Err(e) => Err(e),
                Ok(items) => match spec_content_lines(
                    segs.drop_first(),
                    spec_new_level(line, level),
                ) {
                    Ok((rest, l2)) => Ok((items + rest, l2)),
                    Err(e) => Err(e),
                },
            }
        }
    }
}

/// Whether `c` is a relation marker.
fn is_rel_sym_char(c: char) -> (r: bool)
    ensures
        r == is_rel_sym(c),
{
    c == '+' || c == '-' || c == '*'
}

proof fn lemma_last_sym_value(s: Seq<char>, p: int)
    requires
        0 <= p < s.len(),
        is_rel_sym(s[p]),
        forall|j: int| p < j < s.len() ==> !is_rel_sym(#[trigger] s[j]),
    ensures
        last_sym_pos(s) == p,
    decreases s.len(),
{
    if p < s.len() - 1 {
        lemma_last_sym_value(s.drop_last(), p);
    }
}

proof fn lemma_last_sym_none(s: Seq<char>)
    requires
        forall|j: int| 0 <= j < s.len() ==> !is_rel_sym(#[trigger] s[j]),
    ensures
        last_sym_pos(s) == -1,
    decreases s.len(),
{
    if s.len() > 0 {
        lemma_last_sym_none(s.drop_last());
    }
}

/// Position of the last relation symbol, scanned from the end.
fn last_rel_sym(s: &str) -> (r: Option<usize>)
    ensures
        match r {
            Some(p) => p == last_sym_pos(s@) && p < s@.len(),
            None => last_sym_pos(s@) == -1,
        },
{
    let len = s.unicode_len();
    let mut i = len;
    while i > 0
        invariant
            0 <= i <= len,
            len == s@.len(),
            forall|j: int| i <= j < len ==> !is_rel_sym(#[trigger] s@[j]),
        decreases i,
    {
        if is_rel_sym_char(s.get_char(i - 1)) {
            proof {
                lemma_last_sym_value(s@, i - 1);
            }
            return Some(i - 1);
        }
        i -= 1;
    }
    proof {
        lemma_last_sym_none(s@);
    }
    None
}

proof fn lemma_first_spaced_value(s: Seq<char>, p: int)
    requires
        1 <= p,
        p + 1 < s.len(),
        s[p - 1] == ' ' && is_rel_sym(s[p]) && s[p + 1] == ' ',
        forall|q: int|
            1 <= q < p && q + 1 < s.len() ==> !(s[q - 1] == ' ' && is_rel_sym(#[trigger] s[q])
                && s[q + 1] == ' '),
    ensures
        first_spaced_sym(s) == p,
    decreases s.len(),
{
    if p > 1 {
        let t = s.drop_first();
        assert forall|q: int|
            1 <= q < p - 1 && q + 1 < t.len() implies !(t[q - 1] == ' ' && is_rel_sym(
            #[trigger] t[q],
        ) && t[q + 1] == ' ') by {
            assert(t[q - 1] == s[q]);
            assert(t[q] == s[q + 1]);
            assert(t[q + 1] == s[q + 2]);
        }
        assert(t[p - 2] == s[p - 1] && t[p - 1] == s[p] && t[p] == s[p + 1]);
        lemma_first_spaced_value(t, p - 1);
    }
}

proof fn lemma_first_spaced_none(s: Seq<char>)
    requires
        forall|q: int|
            1 <= q && q + 1 < s.len() ==> !(s[q - 1] == ' ' && is_rel_sym(#[trigger] s[q]) && s[q
                + 1] == ' '),
    ensures
        first_spaced_sym(s) == -1,
    decreases s.len(),
{
    if s.len() >= 3 {
        let t = s.drop_first();
        assert forall|q: int|
            1 <= q && q + 1 < t.len() implies !(t[q - 1] == ' ' && is_rel_sym(#[trigger] t[q])
            && t[q + 1] == ' ') by {
            assert(t[q - 1] == s[q]);
            assert(t[q] == s[q + 1]);
            assert(t[q + 1] == s[q + 2]);
        }
        lemma_first_spaced_none(t);
    }
}

/// Position of the symbol of the first space-delimited relation window.
fn first_spaced_sym_scan(s: &str) -> (r: Option<usize>)
    ensures
        match r {
            Some(p) => p == first_spaced_sym(s@) && 1 <= p && p + 1 < s@.len(),
            None => first_spaced_sym(s@) == -1,
        },
{
    let len = s.unicode_len();
    if len < 3 {
        proof {
            lemma_first_spaced_none(s@);
        }
        return None;
    }
    let mut q: usize = 1;
    while q < len - 1
        invariant
            1 <= q,
            q <= len - 1,
            len == s@.len(),
            3 <= len,
            forall|j: int|
                1 <= j < q && j + 1 < s@.len() ==> !(s@[j - 1] == ' ' && is_rel_sym(
                    #[trigger] s@[j],
                ) && s@[j + 1] == ' '),
        decreases len - q,
    {
        if s.get_char(q - 1) == ' ' && is_rel_sym_char(s.get_char(q)) && s.get_char(q + 1) == ' ' {
            proof {
                lemma_first_spaced_value(s@, q as int);
            }
            return Some(q);
        }
        q += 1;
    }
    proof {
        lemma_first_spaced_none(s@);
    }
    None
}

impl Content {
    /// A content arena holding only the synthetic sentinel item.
    pub fn init() -> (c: Self)
        ensures
            c.current_level == 0,
            items_model(c.data_list@) == seq![blank_item()],
    {
        let mut data_list: Vec<Item> = Vec::new();
        let item = Item {
            name: None,
            name_macro: None,
            dir: None,
            relation: None,
            rel_macro: None,
            level: 0,
            index: 0,
            root: 0,
            sub_list: Vec::new(),
        };
        data_list.push(item);
        proof {
            assert(data_list@[0]@ =~= blank_item());
            assert(items_model(data_list@) =~= seq![blank_item()]);
        }
        Content { current_level: 0, data_list }
    }

    /// A fresh blank item.
    pub fn empty_item(&mut self) -> (r: Item)
        ensures
            *final(self) == *old(self),
            r@ == blank_item(),
    {
        let r = Item {
            name: None,
            name_macro: None,
            dir: None,
            relation: None,
            rel_macro: None,
            level: 0,
            index: 0,
            root: 0,
            sub_list: Vec::new(),
        };
        proof {
            assert(r@.sub_list =~= Seq::<int>::empty());
            assert(r@ =~= blank_item());
        }
        r
    }

    /// Parses a top-level line: at most two space-separated tokens.
    pub fn parse_root_item(&mut self, s: &String) -> (r: Result<Item, String>)
        ensures
            *final(self) == *old(self),
            r is Ok <==> spec_root_item(s@) is Ok,
            r is Ok ==> r->Ok_0@ == spec_root_item(s@)->Ok_0,
            r is Err ==> r->Err_0@ == spec_root_item(s@)->Err_0,
    {
        proof {
            reveal_strlit(" ");
        }
        let tc = split_str(s.as_str(), " ");
        let tc_len = tc.len();
        if tc_len > 2 {
            let e = String::from_str("Invalid");
            proof {
                reveal_strlit("Invalid");
            }
            return Err(e);
        }

        let name = trim_str(tc[0].as_str());
        if tc_len == 1 {
            let item = Item {
                level: 0,
                name: Some(name),
                name_macro: None,
                dir: None,
                relation: None,
                rel_macro: None,
                index: 0,
                root: 0,
                sub_list: Vec::new(),
            };
            proof {
                assert(item@.sub_list =~= Seq::<int>::empty());
                assert(item@ =~= spec_root_item(s@)->Ok_0);
            }
            Ok(item)
        } else {
            let name_macro = trim_str(tc[1].as_str());
            let item = Item {
                level: 0,
                name: Some(name),
                name_macro: Some(name_macro),
                dir: None,
                relation: None,
                rel_macro: None,
                index: 0,
                root: 0,
                sub_list: Vec::new(),
            };
            proof {
                assert(item@.sub_list =~= Seq::<int>::empty());
                assert(item@ =~= spec_root_item(s@)->Ok_0);
            }
            Ok(item)
        }
    }

    /// Splits a trimmed line into its primary token and an optional trailing
    /// token at the first space; always succeeds.
    pub fn element_parse(&mut self, s: &String) -> (r: Option<Entity>)
        ensures
            *final(self) == *old(self),
            r is Some,
            crate::import::opt_str(r->0.body) == spec_element_body(s@),
            crate::import::opt_str(r->0.attr) == spec_element_attr(s@),
            r->0.index == 0 && r->0.root == 0 && r->0.level == 0,
    {
        let new_s = trim_str(s.as_str());
        let nlen = new_s.as_str().unicode_len();

        let ai_index = Finder::next_point(new_s.as_str(), 0, ' ', true).unwrap();
        proof {
            crate::find::lemma_scan_from_value(new_s@, 0, ' ', true, ai_index as int);
        }

        let body = trim_str(new_s.as_str().substring_char(0, ai_index));
        proof {
            assert(new_s@.subrange(0, ai_index as int) =~= new_s@.take(ai_index as int));
            crate::text::lemma_trim_shape(new_s@.take(ai_index as int));
        }
        let blen = body.as_str().unicode_len();

        let mut a = Entity { body: None, attr: None, index: 0, root: 0, level: 0 };

        if blen < nlen {
            let attr = trim_str(new_s.as_str().substring_char(blen, nlen));
            proof {
                assert(new_s@.subrange(blen as int, nlen as int) =~= new_s@.skip(blen as int));
            }
            if attr.as_str().unicode_len() > 0 {
                a.attr = Some(attr);
            }
        }

        if blen > 0 {
            a.body = Some(body);
        }

        Some(a)
    }

    /// Parses one content line: a top-level line, or an evenly indented line
    /// holding one entity or a space-delimited relation between two.
    pub fn parse_plain(&mut self, s: &String) -> (r: Result<Vec<Item>, String>)
        ensures
            final(self).data_list == old(self).data_list,
            final(self).current_level as int == spec_new_level(
                s@,
                old(self).current_level as int,
            ),
            r is Ok <==> spec_parse_plain(s@) is Ok,
            r is Ok ==> items_model(r->Ok_0@) == spec_parse_plain(s@)->Ok_0,
            r is Err ==> r->Err_0@ == spec_parse_plain(s@)->Err_0,
    {
        let mut out_data: Vec<Item> = Vec::new();
        proof {
            assert(items_model(out_data@) =~= Seq::<ItemModel>::empty());
        }
        let slen = s.as_str().unicode_len();
        let indent2 = slen >= 2 && s.as_str().get_char(0) == ' ' && s.as_str().get_char(1) == ' ';
        if !indent2 {
            let root = match self.parse_root_item(s) {
                Ok(it) => it,
                Err(e) => {
                    return Err(e);
                },
            };
            self.current_level = 0;
            let ghost rm = root@;
            out_data.push(root);
            proof {
                assert(items_model(out_data@) =~= seq![rm]);
            }
            Ok(out_data)
        } else {
            let mut level = Finder::space_count(s.as_str(), ' ', true);
            proof {
                crate::find::lemma_scan_from_value(s@, 0, ' ', false, level as int);
            }
            if level % 2 != 0 {
                return Ok(out_data);
            }
            level = level / 2;
            self.current_level = level;

            match last_rel_sym(s.as_str()) {
                None => {
                    let raw_name = trim_str(s.as_str());
                    let name_entity = self.element_parse(&raw_name).unwrap();
                    proof {
                        crate::text::lemma_trim_idempotent(s@);
                    }
                    let item = Item {
                        level: level,
                        name: name_entity.body,
                        name_macro: name_entity.attr,
                        dir: None,
                        relation: None,
                        rel_macro: None,
                        index: 0,
                        root: 0,
                        sub_list: Vec::new(),
                    };
                    let ghost im = item@;
                    out_data.push(item);
                    proof {
                        assert(im.sub_list =~= Seq::<int>::empty());
                        assert(items_model(out_data@) =~= seq![im]);
                        assert(im =~= spec_parse_plain(s@)->Ok_0[0]);
                        assert(items_model(out_data@) =~= spec_parse_plain(s@)->Ok_0);
                    }
                    Ok(out_data)
                },
                Some(p) => {
                    let raw_name = trim_str(s.as_str().substring_char(0, p));
                    let raw_rel = trim_str(s.as_str().substring_char(p + 1, slen));
                    proof {
                        assert(s@.subrange(0, p as int) =~= s@.take(p as int));
                        assert(s@.subrange(p + 1, slen as int) =~= s@.skip(p + 1));
                    }
                    if raw_name.as_str().unicode_len() == 0 || raw_rel.as_str().unicode_len()
                        == 0 {
                        return Ok(out_data);
                    }
                    match first_spaced_sym_scan(s.as_str()) {
                        None => {
                            return Ok(out_data);
                        },
                        Some(q) => {
                            let dir = String::from_str(s.as_str().substring_char(q, q + 1));
                            proof {
                                assert(s@.subrange(q as int, q + 1) =~= seq![s@[q as int]]);
                            }
                            let name_entity = self.element_parse(&raw_name).unwrap();
                            let attr_entity = self.element_parse(&raw_rel).unwrap();
                            proof {
                                crate::text::lemma_trim_idempotent(s@.take(p as int));
                                crate::text::lemma_trim_idempotent(s@.skip(p + 1));
                            }
                            let item = Item {
                                level: level,
                                name: name_entity.body,
                                name_macro: name_entity.attr,
                                dir: Some(dir),
                                relation: attr_entity.body,
                                rel_macro: attr_entity.attr,
                                index: 0,
                                root: 0,
                                sub_list: Vec::new(),
                            };
                            let ghost im = item@;
                            out_data.push(item);
                            proof {
                                assert(im.sub_list =~= Seq::<int>::empty());
                                assert(items_model(out_data@) =~= seq![im]);
                                assert(im =~= spec_parse_plain(s@)->Ok_0[0]);
                                assert(items_model(out_data@) =~= spec_parse_plain(s@)->Ok_0);
                            }
                            Ok(out_data)
                        },
                    }
                },
            }
        }
    }

    /// Parses one content line; the entry point the engine calls per line.
    pub fn extract(&mut self, s: &String) -> (r: Result<Vec<Item>, String>)
        ensures
            final(self).data_list == old(self).data_list,
            final(self).current_level as int == spec_new_level(
                s@,
                old(self).current_level as int,
            ),
            r is Ok <==> spec_parse_plain(s@) is Ok,
            r is Ok ==> items_model(r->Ok_0@) == spec_parse_plain(s@)->Ok_0,
            r is Err ==> r->Err_0@ == spec_parse_plain(s@)->Err_0,
    {
        self.parse_plain(s)
    }

    /// Walks one raw line's tokens, appending what each parses into; the
    /// first hard error surfaces at once, keeping the items before it.
    pub fn parse_item(&mut self, linec: &LineContext) -> (r: Result<(), String>)
        ensures
            match spec_content_lines(linec.seg.deep_view(), old(self).current_level as int) {
                Ok((items, l2)) => r is Ok && items_model(final(self).data_list@) == items_model(
                    old(self).data_list@,
                ) + items && final(self).current_level as int == l2,
                Err(e) => r is Err && r->Err_0@ == e,
            },
    {
        let ghost segs = linec.seg.deep_view();
        let ghost base = items_model(old(self).data_list@);
        let mut i: usize = 0;
        proof {
            assert(segs.skip(0) =~= segs);
            assert(items_model(self.data_list@).take(base.len() as int) =~= base);
            match spec_content_lines(segs, old(self).current_level as int) {
                Ok((items, l2)) => {
                    assert((items_model(self.data_list@) + items).skip(base.len() as int)
                        =~= items);
                },
                Err(_) => {},
            }
        }
        while i < linec.seg.len()
            invariant
                segs == linec.seg.deep_view(),
                base == items_model(old(self).data_list@),
                0 <= i <= linec.seg@.len(),
                spec_content_lines(segs, old(self).current_level as int) == (match spec_content_lines(
                    segs.skip(i as int),
                    self.current_level as int,
                ) {
                    Ok((items, l2)) => Ok::<(Seq<ItemModel>, int), Seq<char>>(
                        ((items_model(self.data_list@) + items).skip(base.len() as int), l2),
                    ),
                    Err(e) => Err(e),
                }),
                items_model(self.data_list@).take(base.len() as int) == base,
                items_model(self.data_list@).len() >= base.len(),
            decreases linec.seg@.len() - i,
        {
            let ghost pre_items = items_model(self.data_list@);
            let ghost pre_level = self.current_level as int;
            let new_s = linec.seg[i].clone();
            let rs_len = new_s.as_str().unicode_len();
            let skip_line = if rs_len == 0 {
                true
            } else {
                crate::text::has_prefix(new_s.as_str(), "//")
            };
            proof {
                assert(segs.skip(i as int).first() == segs[i as int]);
                assert(segs.skip(i as int).drop_first() =~= segs.skip(i + 1));
                assert(segs[i as int] == linec.seg@[i as int]@);
            }
            if !skip_line {
                let ptc = match self.extract(&new_s) {
                    Ok(v) => v,
                    Err(e) => {
                        return Err(e);
                    },
                };
                let ghost pm = items_model(ptc@);
                let mut ptc_mut = ptc;
                self.data_list.append(&mut ptc_mut);
                proof {
                    assert(items_model(self.data_list@) =~= pre_items + pm);
                    assert(items_model(self.data_list@).take(base.len() as int) =~= base);
                    assert((pre_items + pm).skip(base.len() as int) =~= pre_items.skip(
                        base.len() as int,
                    ) + pm);
                    match spec_content_lines(segs.skip(i + 1), self.current_level as int) {
                        Ok((items, l2)) => {
                            assert((items_model(self.data_list@) + items).skip(base.len() as int)
                                =~= pre_items.skip(base.len() as int) + (pm + items));
                            assert((pre_items + (pm + items)).skip(base.len() as int)
                                =~= pre_items.skip(base.len() as int) + (pm + items));
                        },
                        Err(_) => {},
                    }
                }
            } else {
                proof {
                    assert(spec_content_lines(segs.skip(i as int), pre_level)
                        == spec_content_lines(segs.skip(i + 1), pre_level));
                }
            }
            i += 1;
        }
        proof {
            assert(segs.skip(segs.len() as int) =~= Seq::<Seq<char>>::empty());
            assert((items_model(self.data_list@) + Seq::<ItemModel>::empty()).skip(
                base.len() as int,
            ) =~= items_model(self.data_list@).skip(base.len() as int));
            assert(base + items_model(self.data_list@).skip(base.len() as int) =~= items_model(
                self.data_list@,
            ));
        }
        Ok(())
    }
}


/// The integer images of a run of machine words.
pub open spec fn nums(v: Seq<usize>) -> Seq<int> {
    v.map_values(|x: usize| x as int)
}

/// The levels of a run of items.
pub open spec fn levels_of(items: Seq<ItemModel>) -> Seq<int> {
    items.map_values(|it: ItemModel| it.level)
}

/// The resolver's ancestor table before item `i` is processed: seeded with
/// the sentinel; an accepted item at level `l` cuts the table to depth
/// `l + 1` and stands as the new deepest entry; a rejected one leaves it.
pub open spec fn spec_table(levels: Seq<int>, i: int) -> Seq<int>
    decreases i,
    when i >= 1
{
    if i <= 1 {
        seq![0]
    } else {
        let t = spec_table(levels, i - 1);
        let l = levels[i - 1];
        if 0 <= l < t.len() {
            t.take(l + 1).push(i - 1)
        } else {
            t
        }
    }
}

/// The root the resolver assigns to item `i`: the table entry at the item's
/// level, or the sentinel on a jump past the open chain.
pub open spec fn spec_root(levels: Seq<int>, i: int) -> int {
    let t = spec_table(levels, i);
    let l = levels[i];
    if 0 <= l < t.len() {
        t[l]
    } else {
        0
    }
}

/// Every ancestor-table entry stands strictly below the item about to be
/// processed, with the sentinel at the bottom.
pub proof fn lemma_table_entries(levels: Seq<int>, i: int)
    requires
        i >= 1,
    ensures
        spec_table(levels, i).len() >= 1,
        spec_table(levels, i)[0] == 0,
        forall|k: int|
            0 <= k < spec_table(levels, i).len() ==> 0 <= #[trigger] spec_table(levels, i)[k] < i,
    decreases i,
{
    if i > 1 {
        lemma_table_entries(levels, i - 1);
        let t = spec_table(levels, i - 1);
        let l = levels[i - 1];
        if 0 <= l < t.len() {
            assert forall|k: int|
                0 <= k < spec_table(levels, i).len() implies 0 <= #[trigger] spec_table(
                levels,
                i,
            )[k] < i by {
                if k < l + 1 {
                    assert(spec_table(levels, i)[k] == t[k]);
                }
            }
        }
    }
}

/// Following roots from `i` arrives at the sentinel: each step stands
/// strictly lower.
pub open spec fn chain_reaches(roots: Seq<int>, i: int) -> bool
    decreases i,
    when i >= 0
{
    if i == 0 {
        true
    } else if 0 <= roots[i] < i {
        chain_reaches(roots, roots[i])
    } else {
        false
    }
}

proof fn lemma_chain_reaches(roots: Seq<int>, i: int)
    requires
        0 <= i < roots.len(),
        forall|j: int| 1 <= j < roots.len() ==> 0 <= #[trigger] roots[j] < j,
    ensures
        chain_reaches(roots, i),
    decreases i,
{
    if i > 0 {
        lemma_chain_reaches(roots, roots[i]);
    }
}

/// LAW: the level resolver's assignment is acyclic. Every assigned root
/// stands strictly below its item, so following roots from any item reaches
/// the sentinel: the forest has no cycles and no unreachable node.
pub proof fn lemma_level_resolution_acyclic(levels: Seq<int>, roots: Seq<int>)
    requires
        roots.len() <= levels.len(),
        forall|i: int| 1 <= i < roots.len() ==> #[trigger] roots[i] == spec_root(levels, i),
    ensures
        forall|i: int| 1 <= i < roots.len() ==> 0 <= #[trigger] roots[i] < i,
        forall|i: int| 0 <= i < roots.len() ==> chain_reaches(roots, i),
{
    assert forall|i: int| 1 <= i < roots.len() implies 0 <= #[trigger] roots[i] < i by {
        lemma_table_entries(levels, i);
    }
    assert forall|i: int| 0 <= i < roots.len() implies chain_reaches(roots, i) by {
        lemma_chain_reaches(roots, i);
    }
}

/// LAW: resolving an already-resolved sequence again assigns the same
/// roots. The assignment is a function of the levels alone, and the pass
/// writes only positions and roots, never levels.
pub proof fn lemma_level_resolution_idempotent(before: Seq<ItemModel>, once: Seq<ItemModel>)
    requires
        once.len() == before.len(),
        forall|j: int| 0 <= j < before.len() ==> #[trigger] once[j].level == before[j].level,
    ensures
        forall|j: int|
            1 <= j < before.len() ==> spec_root(levels_of(once), j) == spec_root(
                levels_of(before),
                j,
            ),
{
    assert(levels_of(once) =~= levels_of(before));
}

/// The recorded root's own position entry: where the link phase files a
/// node.
pub open spec fn eff_root(items: Seq<ItemModel>, j: int) -> int {
    items[items[j].root].index
}

/// The children the link phase gives `r` among the first `n` items: every
/// non-sentinel position whose effective root is `r`, ascending.
pub open spec fn spec_children(items: Seq<ItemModel>, r: int, n: int) -> Seq<int>
    decreases n,
    when n >= 0
{
    if n <= 1 {
        Seq::empty()
    } else {
        let rest = spec_children(items, r, n - 1);
        if eff_root(items, n - 1) == r {
            rest.push(n - 1)
        } else {
            rest
        }
    }
}

/// Every listed child lies strictly between its parent and the arena's end.
pub open spec fn wf_sub_lists(items: Seq<ItemModel>) -> bool {
    forall|j: int, k: int|
        0 <= j < items.len() && 0 <= k < items[j].sub_list.len() ==> j
            < (#[trigger] items[j].sub_list[k]) < items.len()
}

/// The endpoint subtree assembled at `index`: the children still
/// unprocessed when reached, in list order, each marked once its own
/// subtree stands.
pub open spec fn spec_build(
    items: Seq<ItemModel>,
    index: int,
    name: Option<Seq<char>>,
    processed: Seq<int>,
) -> (crate::endpoint::EndModel, Seq<int>)
    decreases items.len() - index, 1int, 0int,
    when wf_sub_lists(items) && 0 <= index < items.len()
{
    let (subs, p2) = spec_build_children(items, index, 0, processed);
    (crate::endpoint::EndModel { index: index, name: name, neighbor: subs }, p2)
}

/// The subtrees of the children of `index` from list position `k` on.
pub open spec fn spec_build_children(
    items: Seq<ItemModel>,
    index: int,
    k: int,
    processed: Seq<int>,
) -> (Seq<crate::endpoint::EndModel>, Seq<int>)
    decreases items.len() - index, 0int, items[index].sub_list.len() - k,
    when wf_sub_lists(items) && 0 <= index < items.len() && 0 <= k <= items[index].sub_list.len()
{
    if k >= items[index].sub_list.len() {
        (Seq::empty(), processed)
    } else {
        let i = items[index].sub_list[k];
        if processed[i] == 1 {
            spec_build_children(items, index, k + 1, processed)
        } else {
            let (sub, p2) = spec_build(items, i, items[i].name, processed);
            let p3 = p2.update(i, 1);
            let (rest, p4) = spec_build_children(items, index, k + 1, p3);
            (seq![sub] + rest, p4)
        }
    }
}

/// A run of unset processed flags.
pub open spec fn zeros(n: int) -> Seq<int>
    decreases n,
    when n >= 0
{
    if n <= 0 {
        Seq::empty()
    } else {
        zeros(n - 1).push(0)
    }
}

/// The assembly walk: every item still unprocessed when reached stands as a
/// subtree under the sentinel node, in ascending order.
pub open spec fn spec_forest_loop(
    items: Seq<ItemModel>,
    idx: int,
    end: crate::endpoint::EndModel,
    processed: Seq<int>,
) -> crate::endpoint::EndModel
    decreases items.len() - idx,
    when wf_sub_lists(items) && 1 <= idx
{
    if idx >= items.len() {
        end
    } else if processed[idx] == 0 {
        let (sub, p2) = spec_build(items, idx, items[idx].name, processed);
        spec_forest_loop(
            items,
            idx + 1,
            crate::endpoint::EndModel {
                index: end.index,
                name: end.name,
                neighbor: end.neighbor.push(sub),
            },
            p2,
        )
    } else {
        spec_forest_loop(items, idx + 1, end, processed)
    }
}

/// The whole forest: the synthetic sentinel with every assembled subtree.
pub open spec fn spec_parse_build(items: Seq<ItemModel>) -> crate::endpoint::EndModel {
    spec_forest_loop(
        items,
        1,
        crate::endpoint::EndModel {
            index: 0,
            name: Some("root"@),
            neighbor: Seq::empty(),
        },
        zeros(items.len() as int),
    )
}


impl Content {
    /// One resolver step: reads the table entry at the item's level as its
    /// root, then records the item as the deepest open ancestor; an item
    /// deeper than the open chain gets the sentinel and leaves the table.
    pub fn parse_item_level(&mut self, index: usize, table: &mut LevelTable) -> (r: usize)
        requires
            index < old(self).data_list@.len(),
            old(table).table@.len() == old(table).current_level + 1,
        ensures
            *final(self) == *old(self),
            ({
                let ent = old(self).data_list@[index as int];
                let tbl = old(table).table@;
                if ent.level > old(table).current_level {
                    r == 0 && *final(table) == *old(table)
                } else {
                    r == tbl[ent.level as int] && final(table).table@ == tbl.take(
                        ent.level + 1,
                    ).push(ent.index) && final(table).current_level == ent.level + 1
                }
            }),
    {
        let ent_level = self.data_list[index].level;
        let ent_index = self.data_list[index].index;

        if ent_level > table.current_level {
            return 0;
        }

        let tab_len = table.table.len();
        let root_index = table.table[ent_level];

        if ent_level >= table.current_level {
            table.table.push(ent_index);
            proof {
                assert(table.table@ =~= old(table).table@.take(ent_level + 1).push(ent_index));
            }
        } else {
            table.table.truncate(ent_level + 1);
            table.table.push(ent_index);
            proof {
                assert(table.table@ =~= old(table).table@.take(ent_level + 1).push(ent_index));
            }
        }

        table.current_level = ent_level + 1;

        root_index
    }

    /// The resolver pass: records each item's position and assigns its
    /// root, walking the whole arena once.
    pub fn parse_level(&mut self)
        ensures
            final(self).current_level == old(self).current_level,
            final(self).data_list@.len() == old(self).data_list@.len(),
            old(self).data_list@.len() >= 1 ==> final(self).data_list@[0] == old(
                self,
            ).data_list@[0],
            forall|j: int|
                1 <= j < old(self).data_list@.len() ==> items_model(final(self).data_list@)[j]
                    == (ItemModel {
                    index: j,
                    root: spec_root(levels_of(items_model(old(self).data_list@)), j),
                    ..items_model(old(self).data_list@)[j]
                }),
    {
        let ghost items0 = items_model(old(self).data_list@);
        let ghost levels = levels_of(items0);
        let mut table = LevelTable { table: Vec::new(), current_level: 0 };
        table.table.push(0);
        proof {
            assert(nums(table.table@) =~= seq![0int]);
            assert(nums(table.table@) == spec_table(levels, 1));
        }

        let mut index: usize = 1;
        while index < self.data_list.len()
            invariant
                items0 == items_model(old(self).data_list@),
                levels == levels_of(items0),
                self.current_level == old(self).current_level,
                self.data_list@.len() == items0.len(),
                1 <= index,
                items0.len() >= 2 ==> index <= items0.len(),
                table.table@.len() == table.current_level + 1,
                nums(table.table@) == spec_table(levels, if index as int <= items0.len() { index as int } else { 1 }),
                self.data_list@.len() >= 1 ==> self.data_list@[0] == old(self).data_list@[0],
                forall|j: int|
                    1 <= j < index && j < items0.len() ==> items_model(self.data_list@)[j]
                        == (ItemModel { index: j, root: spec_root(levels, j), ..items0[j] }),
                forall|j: int|
                    index <= j < items0.len() ==> #[trigger] self.data_list@[j] == old(
                        self,
                    ).data_list@[j],
            decreases self.data_list@.len() - index,
        {
            let ghost pre = self.data_list@;
            self.data_list[index].index = index;
            proof {
                assert(self.data_list@[index as int]@.level == items0[index as int].level);
                assert(levels[index as int] == items0[index as int].level);
            }
            let root_index = self.parse_item_level(index, &mut table);
            self.data_list[index].root = root_index;
            proof {
                let ent = ItemModel {
                    index: index as int,
                    ..items0[index as int]
                };
                let t = spec_table(levels, index as int);
                let l = levels[index as int];
                assert(self.data_list@[index as int]@ =~= ItemModel {
                    index: index as int,
                    root: root_index as int,
                    ..items0[index as int]
                });
                if 0 <= l < t.len() {
                    assert(root_index as int == t[l]);
                    assert(nums(table.table@) =~= t.take(l + 1).push(index as int));
                } else {
                    assert(root_index as int == 0);
                }
                assert(root_index as int == spec_root(levels, index as int));
                assert(nums(table.table@) == spec_table(levels, index + 1));
                assert(items_model(self.data_list@)[index as int] == (ItemModel {
                    index: index as int,
                    root: spec_root(levels, index as int),
                    ..items0[index as int]
                }));
                assert forall|j: int| 0 <= j < items0.len() && j != index as int implies
                    self.data_list@[j] == pre[j] by {}
                assert forall|j: int| 1 <= j < index + 1 && j < items0.len() implies
                    items_model(self.data_list@)[j] == (ItemModel {
                    index: j,
                    root: spec_root(levels, j),
                    ..items0[j]
                }) by {
                    if j < index as int {
                        assert(self.data_list@[j] == pre[j]);
                        assert(items_model(self.data_list@)[j] == pre[j]@);
                        assert(items_model(pre)[j] == pre[j]@);
                    }
                }
            }
            index += 1;
        }
    }

    /// Appends `sub_index` to the child list of the item at `root_index`.
    pub fn update_sub_list(&mut self, root_index: usize, sub_index: usize)
        requires
            root_index < old(self).data_list@.len(),
        ensures
            final(self).current_level == old(self).current_level,
            final(self).data_list@.len() == old(self).data_list@.len(),
            items_model(final(self).data_list@) == items_model(old(self).data_list@).update(
                root_index as int,
                ItemModel {
                    sub_list: items_model(old(self).data_list@)[root_index as int].sub_list.push(
                        sub_index as int,
                    ),
                    ..items_model(old(self).data_list@)[root_index as int]
                },
            ),
    {
        let item = &mut self.data_list[root_index];
        item.sub_list.push(sub_index);
        proof {
            assert(self.data_list@[root_index as int]@.sub_list =~= items_model(
                old(self).data_list@,
            )[root_index as int].sub_list.push(sub_index as int));
            assert(self.data_list@[root_index as int]@ =~= ItemModel {
                sub_list: items_model(old(self).data_list@)[root_index as int].sub_list.push(
                    sub_index as int,
                ),
                ..items_model(old(self).data_list@)[root_index as int]
            });
            assert(items_model(self.data_list@) =~= items_model(old(self).data_list@).update(
                root_index as int,
                self.data_list@[root_index as int]@,
            ));
        }
    }

    /// The position entry recorded on the item that the given item names as
    /// its root.
    pub fn get_root_from_index(&self, index: usize) -> (r: usize)
        requires
            index < self.data_list@.len(),
            items_model(self.data_list@)[index as int].root < self.data_list@.len(),
        ensures
            r as int == eff_root(items_model(self.data_list@), index as int),
    {
        let root_pos = self.data_list[index].root;
        self.data_list[root_pos].index
    }

    /// The link phase: files every non-sentinel item, in ascending order,
    /// into the child list of its effective root.
    pub fn parse_sub_arch(&mut self)
        requires
            forall|j: int|
                0 <= j < old(self).data_list@.len() ==> (#[trigger] items_model(
                    old(self).data_list@,
                )[j]).root < old(self).data_list@.len(),
            forall|j: int|
                0 <= j < old(self).data_list@.len() ==> 0 <= (#[trigger] items_model(
                    old(self).data_list@,
                )[j]).index < old(self).data_list@.len(),
        ensures
            final(self).current_level == old(self).current_level,
            final(self).data_list@.len() == old(self).data_list@.len(),
            forall|r: int|
                0 <= r < old(self).data_list@.len() ==> items_model(final(self).data_list@)[r]
                    == (ItemModel {
                    sub_list: items_model(old(self).data_list@)[r].sub_list + spec_children(
                        items_model(old(self).data_list@),
                        r,
                        old(self).data_list@.len() as int,
                    ),
                    ..items_model(old(self).data_list@)[r]
                }),
    {
        let ghost items0 = items_model(old(self).data_list@);
        proof {
            assert forall|r: int| 0 <= r < items0.len() implies items_model(self.data_list@)[r]
                == (ItemModel { sub_list: items0[r].sub_list + spec_children(items0, r, 1), ..items0[r] }) by {
                assert(spec_children(items0, r, 1) =~= Seq::<int>::empty());
                assert(items0[r].sub_list + spec_children(items0, r, 1) =~= items0[r].sub_list);
                assert(items_model(self.data_list@)[r] =~= ItemModel {
                    sub_list: items0[r].sub_list + spec_children(items0, r, 1),
                    ..items0[r]
                });
            }
        }
        let mut index: usize = 1;
        while index < self.data_list.len()
            invariant
                items0 == items_model(old(self).data_list@),
                self.current_level == old(self).current_level,
                self.data_list@.len() == items0.len(),
                1 <= index,
                items0.len() >= 2 ==> index <= items0.len(),
                forall|j: int|
                    0 <= j < items0.len() ==> (#[trigger] items0[j]).root < items0.len(),
                forall|j: int|
                    0 <= j < items0.len() ==> 0 <= (#[trigger] items0[j]).index < items0.len(),
                forall|r: int|
                    0 <= r < items0.len() ==> items_model(self.data_list@)[r] == (ItemModel {
                        sub_list: items0[r].sub_list + spec_children(
                            items0,
                            r,
                            if index as int <= items0.len() { index as int } else { 1 },
                        ),
                        ..items0[r]
                    }),
            decreases self.data_list@.len() - index,
        {
            let ghost n = index as int;
            proof {
                assert(items_model(self.data_list@)[n].root == items0[n].root);
                assert(items_model(self.data_list@)[items0[n].root].index == items0[items0[n].root].index);
            }
            let root_index = self.get_root_from_index(index);
            proof {
                assert(eff_root(items_model(self.data_list@), n) == eff_root(items0, n));
            }
            let ghost before = items_model(self.data_list@);
            self.update_sub_list(root_index, index);
            proof {
                let g = root_index as int;
                assert forall|r: int| 0 <= r < items0.len() implies items_model(
                    self.data_list@,
                )[r] == (ItemModel {
                    sub_list: items0[r].sub_list + spec_children(items0, r, n + 1),
                    ..items0[r]
                }) by {
                    if r == g {
                        assert(spec_children(items0, r, n + 1) == spec_children(
                            items0,
                            r,
                            n,
                        ).push(n));
                        assert(items0[r].sub_list + spec_children(items0, r, n).push(n)
                            =~= (items0[r].sub_list + spec_children(items0, r, n)).push(n));
                        assert(items_model(self.data_list@)[r] =~= ItemModel {
                            sub_list: items0[r].sub_list + spec_children(items0, r, n + 1),
                            ..items0[r]
                        });
                    } else {
                        assert(spec_children(items0, r, n + 1) == spec_children(items0, r, n));
                        assert(items_model(self.data_list@)[r] == before[r]);
                    }
                }
            }
            index += 1;
        }
    }
}


impl Content {
    /// Assembles the endpoint subtree rooted at `index` by depth-first
    /// traversal of the child lists, skipping children already processed
    /// and marking each one it builds.
    pub fn build_sub_list(
        &self,
        index: usize,
        name: Option<String>,
        processed: &mut Vec<usize>,
    ) -> (end: crate::endpoint::NeiEndpoint)
        requires
            wf_sub_lists(items_model(self.data_list@)),
            index < self.data_list@.len(),
            old(processed)@.len() == self.data_list@.len(),
        ensures
            final(processed)@.len() == old(processed)@.len(),
            end@ == spec_build(
                items_model(self.data_list@),
                index as int,
                crate::import::opt_str(name),
                nums(old(processed)@),
            ).0,
            nums(final(processed)@) == spec_build(
                items_model(self.data_list@),
                index as int,
                crate::import::opt_str(name),
                nums(old(processed)@),
            ).1,
        decreases self.data_list@.len() - index,
    {
        broadcast use crate::endpoint::lemma_nei_view;

        let ghost items = items_model(self.data_list@);
        let ghost name0 = crate::import::opt_str(name);
        let ghost p0 = nums(old(processed)@);
        let mut end = crate::endpoint::NeiEndpoint::new(index, name);
        let n = self.data_list[index].sub_list.len();
        proof {
            assert(items[index as int].sub_list.len() == n);
            assert(end@.neighbor + spec_build_children(items, index as int, 0, p0).0
                =~= spec_build_children(items, index as int, 0, p0).0);
            assert(spec_build(items, index as int, name0, p0).0 == (crate::endpoint::EndModel {
                index: index as int,
                name: name0,
                neighbor: end@.neighbor + spec_build_children(items, index as int, 0, p0).0,
            }));
        }
        let mut k: usize = 0;
        while k < n
            invariant
                wf_sub_lists(items),
                items == items_model(self.data_list@),
                index < items.len(),
                n == items[index as int].sub_list.len(),
                processed@.len() == items.len(),
                0 <= k <= n,
                end@.index == index as int,
                end@.name == name0,
                spec_build(items, index as int, name0, p0).0 == (crate::endpoint::EndModel {
                    index: index as int,
                    name: name0,
                    neighbor: end@.neighbor + spec_build_children(
                        items,
                        index as int,
                        k as int,
                        nums(processed@),
                    ).0,
                }),
                spec_build(items, index as int, name0, p0).1 == spec_build_children(
                    items,
                    index as int,
                    k as int,
                    nums(processed@),
                ).1,
            decreases n - k,
        {
            let i = self.data_list[index].sub_list[k];
            proof {
                assert(items[index as int].sub_list[k as int] == i as int);
                assert((index as int) < (i as int));
                assert((i as int) < items.len());
                assert(nums(processed@)[i as int] == processed@[i as int] as int);
            }
            if processed[i] != 1 {
                let ghost p_here = nums(processed@);
                let item_name = crate::import::clone_opt(&self.data_list[i].name);
                proof {
                    assert(crate::import::opt_str(item_name) == items[i as int].name);
                }
                let sub_end = self.build_sub_list(i, item_name, processed);
                let ghost p2 = nums(processed@);
                let ghost subm = sub_end@;
                let ghost old_nei = end@.neighbor;
                end.attach(sub_end);
                processed[i] = 1;
                proof {
                    assert(nums(processed@) =~= p2.update(i as int, 1));
                    let bc = spec_build_children(items, index as int, k as int, p_here);
                    let bc2 = spec_build_children(
                        items,
                        index as int,
                        k + 1,
                        nums(processed@),
                    );
                    assert(bc.0 == seq![subm] + bc2.0);
                    assert(bc.1 == bc2.1);
                    assert(old_nei + (seq![subm] + bc2.0) =~= (old_nei.push(subm)) + bc2.0);
                    assert(end@.neighbor == old_nei.push(subm));
                }
            } else {
                proof {
                    assert(spec_build_children(items, index as int, k as int, nums(processed@))
                        == spec_build_children(items, index as int, k + 1, nums(processed@)));
                }
            }
            k += 1;
        }
        proof {
            assert(spec_build_children(items, index as int, n as int, nums(processed@)).0
                =~= Seq::<crate::endpoint::EndModel>::empty());
            assert(end@.neighbor + spec_build_children(
                items,
                index as int,
                n as int,
                nums(processed@),
            ).0 =~= end@.neighbor);
            assert(end@ =~= spec_build(items, index as int, name0, p0).0);
        }
        end
    }

    /// The assembly phase: builds every still-unprocessed item's subtree in
    /// ascending order and attaches it under the synthetic sentinel.
    pub fn parse_build_arch(&mut self) -> (end: crate::endpoint::NeiEndpoint)
        requires
            wf_sub_lists(items_model(old(self).data_list@)),
        ensures
            *final(self) == *old(self),
            end@ == spec_parse_build(items_model(old(self).data_list@)),
    {
        broadcast use crate::endpoint::lemma_nei_view;

        let ghost items = items_model(self.data_list@);
        let mut end = crate::endpoint::NeiEndpoint::new(0, Some(String::from_str("root")));
        proof {
            reveal_strlit("root");
        }
        let mut processed: Vec<usize> = Vec::new();
        let mut index: usize = 0;
        proof {
            assert(nums(processed@) =~= zeros(0));
        }
        while index < self.data_list.len()
            invariant
                items == items_model(self.data_list@),
                *self == *old(self),
                0 <= index <= items.len(),
                processed@.len() == index,
                nums(processed@) == zeros(index as int),
            decreases items.len() - index,
        {
            let ghost before = nums(processed@);
            processed.push(0);
            proof {
                assert(nums(processed@) =~= before.push(0));
            }
            index += 1;
        }

        index = 1;
        proof {
            assert(end@.neighbor =~= Seq::<crate::endpoint::EndModel>::empty());
            assert(end@ =~= crate::endpoint::EndModel {
                index: 0,
                name: Some("root"@),
                neighbor: Seq::empty(),
            });
            assert(nums(processed@) == zeros(items.len() as int));
            assert(spec_parse_build(items) == spec_forest_loop(items, 1, end@, nums(processed@)));
        }
        while index < self.data_list.len()
            invariant
                wf_sub_lists(items),
                items == items_model(self.data_list@),
                *self == *old(self),
                1 <= index,
                index as int <= items.len() || index == 1,
                processed@.len() == items.len(),
                spec_parse_build(items) == spec_forest_loop(
                    items,
                    index as int,
                    end@,
                    nums(processed@),
                ),
            decreases items.len() - index,
        {
            proof {
                assert(nums(processed@)[index as int] == processed@[index as int] as int);
            }
            if processed[index] == 0 {
                let item_name = crate::import::clone_opt(&self.data_list[index].name);
                proof {
                    assert(crate::import::opt_str(item_name) == items[index as int].name);
                }
                let ghost p_here = nums(processed@);
                let ghost end_here = end@;
                let sub = self.build_sub_list(index, item_name, &mut processed);
                let ghost subm = sub@;
                end.attach(sub);
                proof {
                    assert(spec_forest_loop(items, index as int, end_here, p_here)
                        == spec_forest_loop(
                        items,
                        index + 1,
                        crate::endpoint::EndModel {
                            index: end_here.index,
                            name: end_here.name,
                            neighbor: end_here.neighbor.push(subm),
                        },
                        nums(processed@),
                    ));
                    assert(end@ =~= crate::endpoint::EndModel {
                        index: end_here.index,
                        name: end_here.name,
                        neighbor: end_here.neighbor.push(subm),
                    });
                }
            } else {
                proof {
                    assert(spec_forest_loop(items, index as int, end@, nums(processed@))
                        == spec_forest_loop(items, index + 1, end@, nums(processed@)));
                }
            }
            index += 1;
        }
        end
    }
}


/// The items after the resolver pass, as one value: positions recorded,
/// roots assigned, everything else untouched.
pub open spec fn spec_resolve_pass(items: Seq<ItemModel>) -> Seq<ItemModel> {
    Seq::new(
        items.len(),
        |i: int|
            if i == 0 {
                items[0]
            } else {
                ItemModel { index: i, root: spec_root(levels_of(items), i), ..items[i] }
            },
    )
}

/// The items after the link phase, as one value: each item's children
/// appended to its list, everything else untouched.
pub open spec fn spec_link_pass(items: Seq<ItemModel>) -> Seq<ItemModel> {
    Seq::new(
        items.len(),
        |r: int|
            ItemModel {
                sub_list: items[r].sub_list + spec_children(items, r, items.len() as int),
                ..items[r]
            },
    )
}

/// An arena fresh from parsing: no positions, roots or children yet.
pub open spec fn fresh_items(items: Seq<ItemModel>) -> bool {
    forall|j: int|
        0 <= j < items.len() ==> (#[trigger] items[j]).index == 0 && items[j].root == 0
            && items[j].sub_list.len() == 0
}

/// What one line parses into is fresh.
pub proof fn lemma_parse_plain_fresh(s: Seq<char>)
    ensures
        spec_parse_plain(s) is Ok ==> fresh_items(spec_parse_plain(s)->Ok_0),
{
}

/// What a run of lines parses into is fresh.
pub proof fn lemma_content_lines_fresh(segs: Seq<Seq<char>>, level: int)
    ensures
        spec_content_lines(segs, level) is Ok ==> fresh_items(
            spec_content_lines(segs, level)->Ok_0.0,
        ),
    decreases segs.len(),
{
    if segs.len() > 0 {
        let line = segs.first();
        if line.len() == 0 || (line.len() >= "//"@.len() && line.subrange(
            0,
            "//"@.len() as int,
        ) == "//"@) {
            lemma_content_lines_fresh(segs.drop_first(), level);
        } else {
            lemma_parse_plain_fresh(line);
            lemma_content_lines_fresh(segs.drop_first(), spec_new_level(line, level));
        }
    }
}

/// Every child the link phase records stands strictly between its parent
/// and `n`.
pub proof fn lemma_children_in_range(items: Seq<ItemModel>, r: int, n: int)
    requires
        0 <= n <= items.len(),
        forall|j: int| 1 <= j < items.len() ==> eff_root(items, j) < j,
    ensures
        forall|k: int|
            0 <= k < spec_children(items, r, n).len() ==> r < #[trigger] spec_children(
                items,
                r,
                n,
            )[k] < n,
    decreases n,
{
    if n > 1 {
        lemma_children_in_range(items, r, n - 1);
        assert forall|k: int|
            0 <= k < spec_children(items, r, n).len() implies r < #[trigger] spec_children(
            items,
            r,
            n,
        )[k] < n by {
            if eff_root(items, n - 1) == r {
                assert(spec_children(items, r, n) == spec_children(items, r, n - 1).push(n - 1));
                if k < spec_children(items, r, n - 1).len() {
                    assert(spec_children(items, r, n)[k] == spec_children(items, r, n - 1)[k]);
                } else {
                    assert(spec_children(items, r, n)[k] == n - 1);
                    assert(eff_root(items, n - 1) < n - 1);
                }
            } else {
                assert(spec_children(items, r, n) == spec_children(items, r, n - 1));
            }
        }
    }
}

/// After resolving a fresh arena, linking yields well-formed child lists.
pub proof fn lemma_linked_wf(items: Seq<ItemModel>)
    requires
        forall|j: int| 0 <= j < items.len() ==> (#[trigger] items[j]).sub_list.len() == 0,
        forall|j: int| 1 <= j < items.len() ==> eff_root(items, j) < j,
    ensures
        wf_sub_lists(spec_link_pass(items)),
{
    let linked = spec_link_pass(items);
    assert forall|j: int, k: int|
        0 <= j < linked.len() && 0 <= k < linked[j].sub_list.len() implies j
        < (#[trigger] linked[j].sub_list[k]) < linked.len() by {
        lemma_children_in_range(items, j, items.len() as int);
        assert(items[j].sub_list + spec_children(items, j, items.len() as int) =~= spec_children(
            items,
            j,
            items.len() as int,
        ));
        assert(linked[j].sub_list[k] == spec_children(items, j, items.len() as int)[k]);
    }
}

/// On a fresh arena the resolver's effective roots point strictly below
/// each item.
pub proof fn lemma_resolved_eff_roots(items: Seq<ItemModel>)
    requires
        fresh_items(items),
    ensures
        forall|j: int|
            1 <= j < spec_resolve_pass(items).len() ==> eff_root(spec_resolve_pass(items), j) < j,
        forall|j: int|
            0 <= j < spec_resolve_pass(items).len() ==> 0 <= (#[trigger] spec_resolve_pass(
                items,
            )[j]).root < items.len() && 0 <= spec_resolve_pass(items)[j].index < items.len(),
        forall|j: int|
            0 <= j < spec_resolve_pass(items).len() ==> (#[trigger] spec_resolve_pass(
                items,
            )[j]).sub_list.len() == 0,
{
    let rs = spec_resolve_pass(items);
    assert forall|j: int| 1 <= j < rs.len() implies eff_root(rs, j) < j by {
        lemma_table_entries(levels_of(items), j);
        let rt = rs[j].root;
        assert(rt == spec_root(levels_of(items), j));
        assert(0 <= rt < j);
        if rt == 0 {
            assert(rs[0].index == items[0].index);
        }
    }
    assert forall|j: int| 0 <= j < rs.len() implies 0 <= (#[trigger] rs[j]).root < items.len()
        && 0 <= rs[j].index < items.len() by {
        if j >= 1 {
            lemma_table_entries(levels_of(items), j);
        }
    }
}

} // verus!
