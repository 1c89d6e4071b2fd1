//! The driving engine: routes raw lines between the import resolver and the
//! content parser by section markers, then runs the content passes.

use vstd::prelude::*;
use vstd::string::*;

use crate::content::{
    fresh_items, items_model, spec_content_lines, spec_link_pass, spec_parse_build,
    spec_resolve_pass, Content, ItemModel,
};
use crate::import::{deps_model, spec_import_lines, DepModel, Import};
use crate::strip::{spec_rstrip, Strip};
use crate::text::str_eq;

verus! {

/// Which section the lines currently being read belong to.
#[derive(Debug, PartialEq, Eq, Structural)]
pub enum SegmentType {
    SegInit,
    SegImport,
    SegContent,
}

/// The compilation state: the current section and the two accumulators.
#[derive(Debug)]
pub struct Engine {
    pub seg_status: SegmentType,
    pub import_data: Import,
    pub content_data: Content,
}

/// Spec-level image of the engine: section, resolved imports, parsed items
/// and the open nesting level.
#[verifier::ext_equal]
pub ghost struct EngineModel {
    pub seg: SegmentType,
    pub deps: Seq<DepModel>,
    pub items: Seq<ItemModel>,
    pub level: int,
}

impl View for Engine {
    type V = EngineModel;

    open spec fn view(&self) -> EngineModel {
        EngineModel {
            seg: self.seg_status,
            deps: deps_model(self.import_data.data_list@),
            items: items_model(self.content_data.data_list@),
            level: self.content_data.current_level as int,
        }
    }
}

/// What the caller hands the engine to name a compilation.
#[derive(Debug)]
pub struct Config {
    pub name: String,
}

/// One raw line with its position in the source, already cut into tokens.
pub struct LineContext {
    pub line_number: usize,
    pub seg: Vec<String>,
}

/// The section after a run of tokens, and whether any of them was a marker.
pub open spec fn spec_markers(segs: Seq<Seq<char>>, st: SegmentType) -> (SegmentType, bool)
    decreases segs.len(),
{
    if segs.len() == 0 {
        (st, false)
    } else {
        let prior = spec_markers(segs.drop_last(), st);
        let l = segs.last();
        if l == "#[import]"@ {
            (SegmentType::SegImport, true)
        } else if l == "#[content]"@ {
            (SegmentType::SegContent, true)
        } else {
            prior
        }
    }
}

/// A run of tokens without a marker leaves the section unchanged.
pub proof fn lemma_markers_id(segs: Seq<Seq<char>>, st: SegmentType)
    ensures
        !spec_markers(segs, st).1 ==> spec_markers(segs, st).0 == st,
    decreases segs.len(),
{
    if segs.len() > 0 {
        lemma_markers_id(segs.drop_last(), st);
    }
}

/// How routing one line's tokens relates the engine's states: the tokens go
/// to the accumulator the current section names; before any section opens
/// they are dropped.
pub open spec fn spec_route(
    pre: Engine,
    post: Engine,
    segs: Seq<Seq<char>>,
    r: Result<(), String>,
) -> bool {
    match pre.seg_status {
        SegmentType::SegInit => post == pre && r is Ok,
        SegmentType::SegImport => r is Ok && post.seg_status == pre.seg_status
            && post.content_data == pre.content_data && deps_model(post.import_data.data_list@)
            == deps_model(pre.import_data.data_list@) + spec_import_lines(segs),
        SegmentType::SegContent => post.seg_status == pre.seg_status && post.import_data
            == pre.import_data && match spec_content_lines(
            segs,
            pre.content_data.current_level as int,
        ) {
            Ok(pr) => r is Ok && items_model(post.content_data.data_list@) == items_model(
                pre.content_data.data_list@,
            ) + pr.0 && post.content_data.current_level as int == pr.1,
            Err(e) => r is Err && r->Err_0@ == e,
        },
    }
}

/// What feeding the engine one raw line does to its model: the line, with
/// its trailing newlines stripped, either switches the section or lands in
/// the open section's accumulator.
pub open spec fn spec_feed_line(m: EngineModel, line: Seq<char>) -> Result<
    EngineModel,
    Seq<char>,
> {
    let segs = seq![spec_rstrip(line, '\n')];
    let mf = spec_markers(segs, m.seg);
    if mf.1 {
        Ok(EngineModel { seg: mf.0, ..m })
    } else {
        match m.seg {
            SegmentType::SegInit => Ok(m),
            SegmentType::SegImport => Ok(
                EngineModel { deps: m.deps + spec_import_lines(segs), ..m },
            ),
            SegmentType::SegContent => match spec_content_lines(segs, m.level) {
                Ok(pr) => Ok(EngineModel { items: m.items + pr.0, level: pr.1, ..m }),
                Err(e) => Err(e),
            },
        }
    }
}

/// What feeding the engine a whole run of raw lines does, in order; the
/// first hard error stops the run.
pub open spec fn spec_feed(m: EngineModel, lines: Seq<Seq<char>>) -> Result<
    EngineModel,
    Seq<char>,
>
    decreases lines.len(),
{
    if lines.len() == 0 {
        Ok(m)
    } else {
        match spec_feed(m, lines.drop_last()) {
            Ok(m2) => spec_feed_line(m2, lines.last()),
            Err(e) => Err(e),
        }
    }
}

/// A hard error in a prefix of the lines decides the whole run.
pub proof fn lemma_feed_err(m: EngineModel, lines: Seq<Seq<char>>, i: int)
    requires
        0 <= i <= lines.len(),
        spec_feed(m, lines.take(i)) is Err,
    ensures
        spec_feed(m, lines) == spec_feed(m, lines.take(i)),
    decreases lines.len() - i,
{
    if i < lines.len() {
        assert(lines.take(i + 1).drop_last() =~= lines.take(i));
        assert(spec_feed(m, lines.take(i + 1)) == spec_feed(m, lines.take(i)));
        lemma_feed_err(m, lines, i + 1);
    } else {
        assert(lines.take(i) =~= lines);
    }
}

/// The forest the whole compilation hands back for a given run of items:
/// roots resolved, children linked, subtrees assembled under the sentinel.
pub open spec fn spec_compile_forest(items: Seq<ItemModel>) -> crate::endpoint::EndModel {
    spec_parse_build(spec_link_pass(spec_resolve_pass(items)))
}

impl Engine {
    /// Names a compilation after the given line.
    pub fn init_config(line: String) -> (r: Config)
        ensures
            r.name == line,
    {
        Config { name: line.clone() }
    }

    /// A fresh engine: no section open, both accumulators empty but for the
    /// content arena's sentinel.
    pub fn init() -> (r: Self)
        ensures
            r@ == (EngineModel {
                seg: SegmentType::SegInit,
                deps: Seq::empty(),
                items: seq![crate::content::blank_item()],
                level: 0,
            }),
    {
        let r = Engine {
            seg_status: SegmentType::SegInit,
            import_data: Import::init(),
            content_data: Content::init(),
        };
        proof {
            assert(deps_model(r.import_data.data_list@) =~= Seq::<DepModel>::empty());
            assert(r@ =~= EngineModel {
                seg: SegmentType::SegInit,
                deps: Seq::empty(),
                items: seq![crate::content::blank_item()],
                level: 0,
            });
        }
        r
    }

    /// Opens the given section; re-entering the open one is a no-op.
    pub fn seg_status_switch(&mut self, status: SegmentType)
        ensures
            final(self).seg_status == status,
            final(self).import_data == old(self).import_data,
            final(self).content_data == old(self).content_data,
    {
        if status == self.seg_status {
            return ;
        }
        self.seg_status = status;
    }

    /// Routes one line's tokens into the open section's accumulator.
    pub fn parse_raw_line(&mut self, linec: &LineContext) -> (r: Result<(), String>)
        ensures
            spec_route(*old(self), *final(self), linec.seg.deep_view(), r),
    {
        match self.seg_status {
            SegmentType::SegInit => Ok(()),
            SegmentType::SegImport => {
                self.import_data.parse_item(linec);
                Ok(())
            },
            SegmentType::SegContent => self.content_data.parse_item(linec),
        }
    }

    /// Handles one line: a marker token switches the section and swallows
    /// the line; anything else is routed into the open section.
    pub fn parse_line(&mut self, linec: &LineContext) -> (r: Result<(), String>)
        ensures
            ({
                let segs = linec.seg.deep_view();
                let mf = spec_markers(segs, old(self).seg_status);
                if segs.len() < 1 {
                    r is Ok && *final(self) == *old(self)
                } else if mf.1 {
                    r is Ok && final(self).seg_status == mf.0
                        && final(self).import_data == old(self).import_data
                        && final(self).content_data == old(self).content_data
                } else {
                    spec_route(*old(self), *final(self), segs, r)
                }
            }),
    {
        let ghost segs = linec.seg.deep_view();
        if linec.seg.len() < 1 {
            return Ok(());
        }

        let mut seg_skip = false;
        let mut i: usize = 0;
        proof {
            assert(segs.take(0) =~= Seq::<Seq<char>>::empty());
        }
        while i < linec.seg.len()
            invariant
                segs == linec.seg.deep_view(),
                0 <= i <= linec.seg@.len(),
                self.import_data == old(self).import_data,
                self.content_data == old(self).content_data,
                (self.seg_status, seg_skip) == spec_markers(segs.take(i as int), old(self).seg_status),
            decreases linec.seg@.len() - i,
        {
            proof {
                assert(segs.take(i + 1).drop_last() =~= segs.take(i as int));
                assert(segs.take(i + 1).last() == segs[i as int]);
                assert(segs[i as int] == linec.seg@[i as int]@);
            }
            if str_eq(linec.seg[i].as_str(), "#[import]") {
                self.seg_status_switch(SegmentType::SegImport);
                seg_skip = true;
            } else if str_eq(linec.seg[i].as_str(), "#[content]") {
                self.seg_status_switch(SegmentType::SegContent);
                seg_skip = true;
            }
            i += 1;
        }
        proof {
            assert(segs.take(linec.seg@.len() as int) =~= segs);
            lemma_markers_id(segs, old(self).seg_status);
        }

        if !seg_skip {
            self.parse_raw_line(linec)
        } else {
            Ok(())
        }
    }

    /// Compiles a run of raw lines: routes each into its section, resolves
    /// every item's root, links the child lists, and assembles the forest.
    /// A fatal line surfaces as the error the parser gave it.
    pub fn compile(&mut self, lines: Vec<String>) -> (r: Result<
        crate::endpoint::NeiEndpoint,
        String,
    >)
        requires
            fresh_items(items_model(old(self).content_data.data_list@)),
        ensures
            ({
                let fed = spec_feed(old(self)@, lines.deep_view());
                match fed {
                    Err(e) => r is Err && r->Err_0@ == e,
                    Ok(m2) => r is Ok && final(self).seg_status == m2.seg && deps_model(
                        final(self).import_data.data_list@,
                    ) == m2.deps && items_model(final(self).content_data.data_list@)
                        == spec_link_pass(spec_resolve_pass(m2.items))
                        && final(self).content_data.current_level as int == m2.level
                        && r->Ok_0@ == spec_compile_forest(m2.items),
                }
            }),
    {
        let ghost m0 = self@;
        let ghost linesv = lines.deep_view();
        let mut line_number: usize = 1;
        let mut i: usize = 0;
        proof {
            assert(linesv.take(0) =~= Seq::<Seq<char>>::empty());
        }
        while i < lines.len()
            invariant
                fresh_items(items_model(old(self).content_data.data_list@)),
                m0 == old(self)@,
                linesv == lines.deep_view(),
                0 <= i <= lines@.len(),
                spec_feed(m0, linesv.take(i as int)) == Ok::<EngineModel, Seq<char>>(self@),
                fresh_items(self@.items),
            decreases lines@.len() - i,
        {
            let ghost pre = self@;
            proof {
                assert(linesv.take(i + 1).drop_last() =~= linesv.take(i as int));
                assert(linesv.take(i + 1).last() == linesv[i as int]);
                assert(linesv[i as int] == lines@[i as int]@);
            }
            let datat = lines[i].clone();
            let data = Strip::rstrip(datat, '\n');
            let line = crate::parse::parse_simple(data);
            let context = LineContext { line_number: line_number, seg: line };
            proof {
                assert(context.seg.deep_view() =~= seq![spec_rstrip(lines@[i as int]@, '\n')]);
            }
            let res = self.parse_line(&context);
            proof {
                let segs = context.seg.deep_view();
                let mf = spec_markers(segs, pre.seg);
                lemma_markers_id(segs, pre.seg);
                if mf.1 {
                    assert(self@ =~= EngineModel { seg: mf.0, ..pre });
                } else {
                    match pre.seg {
                        SegmentType::SegInit => {
                            assert(self@ =~= pre);
                        },
                        SegmentType::SegImport => {
                            assert(self@ =~= EngineModel {
                                deps: pre.deps + spec_import_lines(segs),
                                ..pre
                            });
                        },
                        SegmentType::SegContent => {
                            match spec_content_lines(segs, pre.level) {
                                Ok(pr) => {
                                    assert(self@ =~= EngineModel {
                                        items: pre.items + pr.0,
                                        level: pr.1,
                                        ..pre
                                    });
                                    crate::content::lemma_content_lines_fresh(segs, pre.level);
                                },
                                Err(_) => {},
                            }
                        },
                    }
                }
                assert(spec_feed_line(pre, linesv[i as int]) is Ok ==> spec_feed_line(
                    pre,
                    linesv[i as int],
                ) == Ok::<EngineModel, Seq<char>>(self@));
            }
            match res {
                Ok(_) => {},
                Err(e) => {
                    proof {
                        assert(spec_feed(m0, linesv.take(i + 1)) is Err);
                        lemma_feed_err(m0, linesv, i + 1);
                    }
                    return Err(e);
                },
            }
            if line_number < usize::MAX {
                line_number = line_number + 1;
            }
            i += 1;
        }
        proof {
            assert(linesv.take(lines@.len() as int) =~= linesv);
        }

        let ghost m2 = self@;
        self.content_data.parse_level();
        proof {
            assert(items_model(self.content_data.data_list@) =~= spec_resolve_pass(m2.items));
            crate::content::lemma_resolved_eff_roots(m2.items);
        }
        let ghost resolved = spec_resolve_pass(m2.items);
        self.content_data.parse_sub_arch();
        proof {
            assert(items_model(self.content_data.data_list@) =~= spec_link_pass(resolved));
            crate::content::lemma_linked_wf(resolved);
        }
        let arch = self.content_data.parse_build_arch();

        Ok(arch)
    }

    /// Runs the same compilation as `compile` but keeps the passes' outcome
    /// in the engine, leaving the forest for the caller to assemble.
    pub fn start(&mut self, lines: Vec<String>) -> (r: Result<(), String>)
        requires
            fresh_items(items_model(old(self).content_data.data_list@)),
        ensures
            ({
                let fed = spec_feed(old(self)@, lines.deep_view());
                match fed {
                    Err(e) => r is Err && r->Err_0@ == e,
                    Ok(m2) => r is Ok && final(self).seg_status == m2.seg && deps_model(
                        final(self).import_data.data_list@,
                    ) == m2.deps && items_model(final(self).content_data.data_list@)
                        == spec_link_pass(spec_resolve_pass(m2.items))
                        && final(self).content_data.current_level as int == m2.level,
                }
            }),
    {
        match self.compile(lines) {
            Ok(_) => Ok(()),
            Err(e) => Err(e),
        }
    }
}

} // verus!
