//! The live-source viewer state: the authoritative entry collection,
//! the filter and selection state, and the reload and reconciliation
//! rules that keep the operator's logical selection stable while the
//! backing file grows. All file access stays with the caller, which
//! hands in plain lines and fingerprints.
use vstd::prelude::*;

use crate::entry::{EntrySpec, LogEntry};
use crate::filter::{
    spec_visible_indices, visible_indices, DirectionFilter, Filters, FilterField, FlowFilter,
    ViewFilter, ViewFilterSpec,
};
use crate::services::ServiceRegistry;
use crate::text::{chars_of, eq_chars};

verus! {

/// What identifies one state of the backing file: its modification
/// time, when the platform reports one, and its length. Compared for
/// equality only; never used to validate content.
#[derive(PartialEq, Eq, Structural, Clone, Copy, Debug)]
pub struct Fingerprint {
    pub has_modified: bool,
    pub modified_secs: u64,
    pub modified_nanos: u32,
    pub len: u64,
}

/// Model of the whole viewer state.
pub struct ViewerSpec {
    pub entries: Seq<EntrySpec>,
    pub interface_options: Seq<Seq<char>>,
    pub filter: ViewFilterSpec,
    pub updates_paused: bool,
    pub selected: int,
    pub log_entry_scroll: int,
    pub last_fingerprint: Option<Fingerprint>,
    pub read_failed: bool,
}

/// The viewer: entry collection (newest first), interface catalogue,
/// filter state, pause flag, selection, and the last file fingerprint.
pub struct Viewer {
    pub entries: Vec<LogEntry>,
    pub interface_options: Vec<String>,
    pub filter: ViewFilter,
    pub updates_paused: bool,
    pub selected: usize,
    pub log_entry_scroll: u16,
    pub last_fingerprint: Option<Fingerprint>,
    pub read_failed: bool,
}

impl View for Viewer {
    type V = ViewerSpec;

    open spec fn view(&self) -> ViewerSpec {
        ViewerSpec {
            entries: self.entries.deep_view(),
            interface_options: self.interface_options.deep_view(),
            filter: self.filter@,
            updates_paused: self.updates_paused,
            selected: self.selected as int,
            log_entry_scroll: self.log_entry_scroll as int,
            last_fingerprint: self.last_fingerprint,
            read_failed: self.read_failed,
        }
    }
}

/// The visible sequence of a viewer state.
pub open spec fn spec_visible(v: ViewerSpec) -> Seq<int> {
    spec_visible_indices(v.entries, v.filter)
}

/// The clamped selection for a visible sequence of the given length:
/// zero when nothing is visible, else at most the last position.
pub open spec fn clamp_sel(prev: int, len: int) -> int {
    if len == 0 {
        0
    } else if prev < len {
        prev
    } else {
        len - 1
    }
}

/// The `raw` text of the currently selected visible entry.
pub open spec fn spec_selected_raw(v: ViewerSpec) -> Option<Seq<char>> {
    let vis = spec_visible(v);
    if vis.len() == 0 {
        None
    } else {
        Some(v.entries[vis[clamp_sel(v.selected, vis.len() as int)]].raw)
    }
}

impl Viewer {
    /// A fresh viewer: no entries, all criteria off, local sources
    /// hidden, wide-area sources shown, everything else permissive.
    pub fn new() -> (r: Self)
        ensures
            r@.entries.len() == 0,
            r@.interface_options.len() == 0,
            r@.filter.filters.service.len() == 0,
            r@.filter.filters.port.len() == 0,
            r@.filter.filters.ip.len() == 0,
            r@.filter.filters.action.len() == 0,
            r@.filter.filters.proto.len() == 0,
            r@.filter.filters.text.len() == 0,
            r@.filter.show_local_src == false,
            r@.filter.show_wan_src == true,
            r@.filter.flow_filter == FlowFilter::All,
            r@.filter.direction_filter == DirectionFilter::Both,
            r@.filter.selected_interface is None,
            r@.updates_paused == false,
            r@.selected == 0,
            r@.log_entry_scroll == 0,
            r@.last_fingerprint is None,
            r@.read_failed == false,
    {
        let r = Viewer {
            entries: Vec::new(),
            interface_options: Vec::new(),
            filter: ViewFilter {
                filters: Filters::default(),
                show_local_src: false,
                show_wan_src: true,
                flow_filter: FlowFilter::All,
                direction_filter: DirectionFilter::Both,
                selected_interface: None,
            },
            updates_paused: false,
            selected: 0,
            log_entry_scroll: 0,
            last_fingerprint: None,
            read_failed: false,
        };
        proof {
            assert(r@.entries =~= Seq::<EntrySpec>::empty());
            assert(r@.interface_options =~= Seq::<Seq<char>>::empty());
        }
        r
    }

    /// The ordered indices of the entries visible under the current
    /// filter state.
    pub fn filtered_indices(&self) -> (r: Vec<usize>)
        ensures
            r@.map_values(|u: usize| u as int) == spec_visible(self@),
            forall|j: int| 0 <= j < r@.len() ==> (#[trigger] r@[j]) < self@.entries.len(),
    {
        visible_indices(&self.entries, &self.filter)
    }

    /// The `raw` text of the currently selected visible entry, if any
    /// row is visible.
    pub fn current_selected_raw(&self) -> (r: Option<String>)
        ensures
            r.deep_view() == spec_selected_raw(self@),
    {
        let vis = self.filtered_indices();
        if vis.len() == 0 {
            return None;
        }
        let s = if self.selected < vis.len() {
            self.selected
        } else {
            vis.len() - 1
        };
        let idx = vis[s];
        proof {
            assert(vis@.map_values(|u: usize| u as int)[s as int] == idx as int);
        }
        Some(self.entries[idx].raw.clone())
    }

    /// Clamps the selection to a visible length: empty clears it to
    /// zero; a selection that moved resets the horizontal scroll.
    pub fn sync_selection_with_len(&mut self, len: usize)
        ensures
            final(self)@ == (ViewerSpec {
                selected: clamp_sel(old(self)@.selected, len as int),
                log_entry_scroll: if clamp_sel(old(self)@.selected, len as int) != old(
                    self,
                )@.selected || len == 0 {
                    0
                } else {
                    old(self)@.log_entry_scroll
                },
                ..old(self)@
            }),
    {
        let prev = self.selected;
        if len == 0 {
            self.selected = 0;
            self.log_entry_scroll = 0;
        } else {
            if self.selected >= len {
                self.selected = len - 1;
            }
            if self.selected != prev {
                self.log_entry_scroll = 0;
            }
        }
    }

    /// Moves the selection one row up or down, clamped to the visible
    /// sequence; without visible rows nothing changes.
    pub fn move_selection(&mut self, down: bool) -> (count: usize)
        ensures
            count == spec_visible(old(self)@).len(),
            ({
                let len = spec_visible(old(self)@).len() as int;
                if len == 0 {
                    final(self)@ == old(self)@
                } else {
                    let stepped = if down {
                        if old(self)@.selected + 1 < len {
                            old(self)@.selected + 1
                        } else {
                            len - 1
                        }
                    } else {
                        if old(self)@.selected > 0 {
                            old(self)@.selected - 1
                        } else {
                            0
                        }
                    };
                    final(self)@ == (ViewerSpec {
                        selected: clamp_sel(stepped, len),
                        log_entry_scroll: if clamp_sel(stepped, len) != stepped {
                            0
                        } else {
                            old(self)@.log_entry_scroll
                        },
                        ..old(self)@
                    })
                }
            }),
    {
        let vis = self.filtered_indices();
        let len = vis.len();
        if len == 0 {
            return 0;
        }
        if down {
            if self.selected < len - 1 {
                self.selected = self.selected + 1;
            } else {
                self.selected = len - 1;
            }
        } else {
            if self.selected > 0 {
                self.selected = self.selected - 1;
            }
        }
        self.sync_selection_with_len(len);
        len
    }

    /// Selects the visible row at a display offset, clamped to the
    /// visible sequence; does nothing when no row is visible.
    pub fn select_visible_row(&mut self, offset: usize, row_index: usize)
        ensures
            ({
                let len = spec_visible(old(self)@).len() as int;
                if len == 0 {
                    final(self)@ == old(self)@
                } else {
                    let absolute = if offset + row_index < len {
                        offset + row_index
                    } else {
                        len - 1
                    };
                    final(self)@ == (ViewerSpec { selected: absolute, ..old(self)@ })
                }
            }),
    {
        let vis = self.filtered_indices();
        let len = vis.len();
        if len == 0 {
            return;
        }
        let cap = len - 1;
        let absolute = if offset >= cap || row_index >= cap - offset {
            cap
        } else {
            offset + row_index
        };
        self.selected = absolute;
        self.sync_selection_with_len(len);
    }

    /// The stored text of one criterion.
    pub fn get_filter_value(&self, field: FilterField) -> (r: &str)
        ensures
            r@ == crate::filter::field_of(self@.filter.filters, field),
    {
        match field {
            FilterField::Service => self.filter.filters.service.as_str(),
            FilterField::Port => self.filter.filters.port.as_str(),
            FilterField::Ip => self.filter.filters.ip.as_str(),
            FilterField::Action => self.filter.filters.action.as_str(),
            FilterField::Proto => self.filter.filters.proto.as_str(),
            FilterField::Text => self.filter.filters.text.as_str(),
        }
    }

    /// Stores one criterion, trimmed, and resets selection and scroll.
    /// Other criteria are untouched.
    pub fn set_filter_value(&mut self, field: FilterField, value: String)
        ensures
            final(self)@ == (ViewerSpec {
                filter: ViewFilterSpec {
                    filters: crate::filter::with_field(
                        old(self)@.filter.filters,
                        field,
                        crate::text::trim_seq(value@),
                    ),
                    ..old(self)@.filter
                },
                selected: 0,
                log_entry_scroll: 0,
                ..old(self)@
            }),
    {
        let cleaned = crate::text::string_from_chars(
            &crate::text::trim_chars(&chars_of(value.as_str())),
        );
        match field {
            FilterField::Service => {
                self.filter.filters.service = cleaned;
            },
            FilterField::Port => {
                self.filter.filters.port = cleaned;
            },
            FilterField::Ip => {
                self.filter.filters.ip = cleaned;
            },
            FilterField::Action => {
                self.filter.filters.action = cleaned;
            },
            FilterField::Proto => {
                self.filter.filters.proto = cleaned;
            },
            FilterField::Text => {
                self.filter.filters.text = cleaned;
            },
        }
        self.selected = 0;
        self.log_entry_scroll = 0;
    }

    /// Clears one criterion, leaving the others untouched, and reports
    /// how many rows match afterwards.
    pub fn clear_filter(&mut self, field: FilterField) -> (count: usize)
        ensures
            final(self)@ == (ViewerSpec {
                filter: ViewFilterSpec {
                    filters: crate::filter::with_field(
                        old(self)@.filter.filters,
                        field,
                        Seq::empty(),
                    ),
                    ..old(self)@.filter
                },
                selected: 0,
                log_entry_scroll: 0,
                ..old(self)@
            }),
            count == spec_visible(final(self)@).len(),
    {
        self.set_filter_value(field, String::new());
        proof {
            assert(crate::text::trim_seq(Seq::<char>::empty()) =~= Seq::<char>::empty());
        }
        let vis = self.filtered_indices();
        vis.len()
    }

    /// Turns the local-source toggle; reports the new match count.
    pub fn toggle_show_local_src(&mut self) -> (count: usize)
        ensures
            final(self)@ == (ViewerSpec {
                filter: ViewFilterSpec {
                    show_local_src: !old(self)@.filter.show_local_src,
                    ..old(self)@.filter
                },
                selected: 0,
                log_entry_scroll: 0,
                ..old(self)@
            }),
            count == spec_visible(final(self)@).len(),
    {
        self.filter.show_local_src = !self.filter.show_local_src;
        self.selected = 0;
        self.log_entry_scroll = 0;
        let vis = self.filtered_indices();
        vis.len()
    }

    /// Turns the wide-area-source toggle; reports the new match count.
    pub fn toggle_show_wan_src(&mut self) -> (count: usize)
        ensures
            final(self)@ == (ViewerSpec {
                filter: ViewFilterSpec {
                    show_wan_src: !old(self)@.filter.show_wan_src,
                    ..old(self)@.filter
                },
                selected: 0,
                log_entry_scroll: 0,
                ..old(self)@
            }),
            count == spec_visible(final(self)@).len(),
    {
        self.filter.show_wan_src = !self.filter.show_wan_src;
        self.selected = 0;
        self.log_entry_scroll = 0;
        let vis = self.filtered_indices();
        vis.len()
    }

    /// Advances the flow classifier to its next setting; reports the
    /// new match count.
    pub fn cycle_flow_filter(&mut self) -> (count: usize)
        ensures
            final(self)@ == (ViewerSpec {
                filter: ViewFilterSpec {
                    flow_filter: match old(self)@.filter.flow_filter {
                        FlowFilter::All => FlowFilter::LocalToLocal,
                        FlowFilter::LocalToLocal => FlowFilter::LocalToExternal,
                        FlowFilter::LocalToExternal => FlowFilter::All,
                    },
                    ..old(self)@.filter
                },
                selected: 0,
                log_entry_scroll: 0,
                ..old(self)@
            }),
            count == spec_visible(final(self)@).len(),
    {
        self.filter.flow_filter = self.filter.flow_filter.next();
        self.selected = 0;
        self.log_entry_scroll = 0;
        let vis = self.filtered_indices();
        vis.len()
    }

    /// Advances the direction classifier to its next setting; reports
    /// the new match count.
    pub fn cycle_direction_filter(&mut self) -> (count: usize)
        ensures
            final(self)@ == (ViewerSpec {
                filter: ViewFilterSpec {
                    direction_filter: match old(self)@.filter.direction_filter {
                        DirectionFilter::Both => DirectionFilter::In,
                        DirectionFilter::In => DirectionFilter::Out,
                        DirectionFilter::Out => DirectionFilter::Forwarded,
                        DirectionFilter::Forwarded => DirectionFilter::Both,
                    },
                    ..old(self)@.filter
                },
                selected: 0,
                log_entry_scroll: 0,
                ..old(self)@
            }),
            count == spec_visible(final(self)@).len(),
    {
        self.filter.direction_filter = self.filter.direction_filter.next();
        self.selected = 0;
        self.log_entry_scroll = 0;
        let vis = self.filtered_indices();
        vis.len()
    }

    /// Selects an interface, or all interfaces with `None`, and resets
    /// selection and scroll.
    pub fn set_selected_interface(&mut self, interface: Option<String>)
        ensures
            final(self)@ == (ViewerSpec {
                filter: ViewFilterSpec {
                    selected_interface: interface.deep_view(),
                    ..old(self)@.filter
                },
                selected: 0,
                log_entry_scroll: 0,
                ..old(self)@
            }),
    {
        self.filter.selected_interface = interface;
        self.selected = 0;
        self.log_entry_scroll = 0;
    }

    /// Drops the interface restriction; reports the new match count.
    pub fn select_all_interfaces(&mut self) -> (count: usize)
        ensures
            final(self)@ == (ViewerSpec {
                filter: ViewFilterSpec { selected_interface: None, ..old(self)@.filter },
                selected: 0,
                log_entry_scroll: 0,
                ..old(self)@
            }),
            count == spec_visible(final(self)@).len(),
    {
        self.set_selected_interface(None);
        let vis = self.filtered_indices();
        vis.len()
    }

    /// Selects the default wide-area interface for the current
    /// catalogue; reports the new match count.
    pub fn select_default_wan_interface(&mut self) -> (count: usize)
        ensures
            final(self)@ == (ViewerSpec {
                filter: ViewFilterSpec {
                    selected_interface: crate::classify::spec_default_wan(
                        old(self)@.interface_options,
                    ),
                    ..old(self)@.filter
                },
                selected: 0,
                log_entry_scroll: 0,
                ..old(self)@
            }),
            count == spec_visible(final(self)@).len(),
    {
        let iface = crate::classify::default_wan_interface(&self.interface_options);
        self.set_selected_interface(iface);
        let vis = self.filtered_indices();
        vis.len()
    }

    /// Suspends or resumes live updates. Returns whether updates were
    /// just resumed: the caller then performs one immediate reload.
    pub fn toggle_pause_updates(&mut self) -> (resumed: bool)
        ensures
            final(self)@ == (ViewerSpec {
                updates_paused: !old(self)@.updates_paused,
                ..old(self)@
            }),
            resumed == old(self)@.updates_paused,
    {
        self.updates_paused = !self.updates_paused;
        !self.updates_paused
    }

    /// Whether a freshly read fingerprint calls for a reload: never
    /// while paused or without a fingerprint, else exactly when it
    /// differs from the last-known one.
    pub fn needs_reload(&self, current: Option<&Fingerprint>) -> (r: bool)
        ensures
            r == (!self@.updates_paused && match current {
                Some(fp) => self@.last_fingerprint != Some(*fp),
                None => false,
            }),
    {
        if self.updates_paused {
            return false;
        }
        match current {
            None => false,
            Some(fp) => {
                match &self.last_fingerprint {
                    None => true,
                    Some(last) => !(last == fp),
                }
            },
        }
    }

    /// Scrolls the selected row's text a step to the left.
    pub fn scroll_log_entry_left(&mut self)
        ensures
            final(self)@ == (ViewerSpec {
                log_entry_scroll: if old(self)@.log_entry_scroll >= 8 {
                    old(self)@.log_entry_scroll - 8
                } else {
                    0
                },
                ..old(self)@
            }),
    {
        if self.log_entry_scroll >= 8 {
            self.log_entry_scroll = self.log_entry_scroll - 8;
        } else {
            self.log_entry_scroll = 0;
        }
    }

    /// The scroll limit for the selected row: one less than its length,
    /// capped to what the scroll field can hold; zero without a row.
    pub fn current_log_entry_max_scroll(&self) -> (r: u16)
        ensures
            ({
                let vis = spec_visible(self@);
                if vis.len() == 0 {
                    r == 0
                } else {
                    let l = self@.entries[vis[clamp_sel(self@.selected, vis.len() as int)]].raw.len();
                    r == (if l == 0 {
                        0int
                    } else if l - 1 > 65535 {
                        65535int
                    } else {
                        l - 1
                    })
                }
            }),
    {
        let vis = self.filtered_indices();
        if vis.len() == 0 {
            return 0;
        }
        let s = if self.selected < vis.len() {
            self.selected
        } else {
            vis.len() - 1
        };
        let idx = vis[s];
        proof {
            assert(vis@.map_values(|u: usize| u as int)[s as int] == idx as int);
        }
        let l = self.entries[idx].raw.as_str().unicode_len();
        if l == 0 {
            0
        } else if l - 1 > 65535 {
            65535
        } else {
            (l - 1) as u16
        }
    }

    /// Scrolls the selected row's text a step to the right, up to the
    /// scroll limit.
    pub fn scroll_log_entry_right(&mut self)
        ensures
            ({
                let max = {
                    let vis = spec_visible(old(self)@);
                    if vis.len() == 0 {
                        0int
                    } else {
                        let l = old(self)@.entries[vis[clamp_sel(
                            old(self)@.selected,
                            vis.len() as int,
                        )]].raw.len();
                        if l == 0 {
                            0int
                        } else if l - 1 > 65535 {
                            65535int
                        } else {
                            l - 1
                        }
                    }
                };
                let stepped = old(self)@.log_entry_scroll + 8;
                final(self)@ == (ViewerSpec {
                    log_entry_scroll: if stepped > 65535 {
                        if 65535 < max {
                            65535int
                        } else {
                            max
                        }
                    } else {
                        if stepped < max {
                            stepped
                        } else {
                            max
                        }
                    },
                    ..old(self)@
                })
            }),
    {
        let max = self.current_log_entry_max_scroll();
        let stepped = if self.log_entry_scroll > 65535 - 8 {
            65535
        } else {
            self.log_entry_scroll + 8
        };
        self.log_entry_scroll = if stepped < max {
            stepped
        } else {
            max
        };
    }
}

/// How often one name occurs in one entry's interface fields: each of
/// `IN` and `OUT` counts when present, nonempty and equal to the name.
pub open spec fn count_in_entry(e: EntrySpec, name: Seq<char>) -> int {
    (if e.in_iface == Some(name) && name.len() > 0 {
        1int
    } else {
        0int
    }) + (if e.out_iface == Some(name) && name.len() > 0 {
        1int
    } else {
        0int
    })
}

/// How often one interface name occurs over a whole entry collection.
pub open spec fn iface_count(entries: Seq<EntrySpec>, name: Seq<char>) -> int
    decreases entries.len(),
{
    if entries.len() == 0 {
        0
    } else {
        iface_count(entries.drop_last(), name) + count_in_entry(entries.last(), name)
    }
}

pub proof fn lemma_iface_count_bound(entries: Seq<EntrySpec>, name: Seq<char>)
    ensures
        0 <= iface_count(entries, name) <= 2 * entries.len(),
    decreases entries.len(),
{
    if entries.len() > 0 {
        lemma_iface_count_bound(entries.drop_last(), name);
    }
}

/// The catalogue order: more occurrences first, ties by ascending
/// name.
pub open spec fn cat_before(entries: Seq<EntrySpec>, a: Seq<char>, b: Seq<char>) -> bool {
    ||| iface_count(entries, a) > iface_count(entries, b)
    ||| (iface_count(entries, a) == iface_count(entries, b) && crate::text::lex_lt(a, b))
}

/// One tallied interface name.
pub struct IfaceCount {
    pub name: String,
    pub count: usize,
}

/// Model of one tallied name.
pub struct IfaceCountSpec {
    pub name: Seq<char>,
    pub count: int,
}

impl View for IfaceCount {
    type V = IfaceCountSpec;

    open spec fn view(&self) -> IfaceCountSpec {
        IfaceCountSpec { name: self.name@, count: self.count as int }
    }
}

impl DeepView for IfaceCount {
    type V = IfaceCountSpec;

    open spec fn deep_view(&self) -> IfaceCountSpec {
        self.view()
    }
}

/// The count stored for a name, zero when the name is not listed.
pub open spec fn tally_of(rows: Seq<IfaceCountSpec>, name: Seq<char>) -> int
    decreases rows.len(),
{
    if rows.len() == 0 {
        0
    } else if rows[0].name == name {
        rows[0].count
    } else {
        tally_of(rows.drop_first(), name)
    }
}

/// No two rows share a name.
pub open spec fn distinct_names(rows: Seq<IfaceCountSpec>) -> bool {
    forall|i: int, j: int| 0 <= i < j < rows.len() ==> rows[i].name != rows[j].name
}

proof fn lemma_tally_present(rows: Seq<IfaceCountSpec>, k: int)
    requires
        distinct_names(rows),
        0 <= k < rows.len(),
    ensures
        tally_of(rows, rows[k].name) == rows[k].count,
    decreases rows.len(),
{
    if k > 0 {
        assert(rows[0].name != rows[k].name);
        let rest = rows.drop_first();
        assert(distinct_names(rest)) by {
            assert(forall|i: int, j: int|
                0 <= i < j < rest.len() ==> rest[i] == rows[i + 1] && rest[j] == rows[j + 1]);
        }
        assert(rest[k - 1] == rows[k]);
        lemma_tally_present(rest, k - 1);
    }
}

proof fn lemma_tally_absent(rows: Seq<IfaceCountSpec>, name: Seq<char>)
    requires
        forall|i: int| 0 <= i < rows.len() ==> (#[trigger] rows[i]).name != name,
    ensures
        tally_of(rows, name) == 0,
    decreases rows.len(),
{
    if rows.len() > 0 {
        let rest = rows.drop_first();
        assert(forall|i: int| 0 <= i < rest.len() ==> (#[trigger] rest[i]) == rows[i + 1]);
        lemma_tally_absent(rest, name);
    }
}

/// Tallies one occurrence of a name: an existing row's count grows by
/// one, a new name is appended with count one.
fn bump_count(acc: &mut Vec<IfaceCount>, name: &String)
    requires
        name@.len() > 0,
        distinct_names(old(acc).deep_view()),
        forall|i: int|
            0 <= i < old(acc).deep_view().len() ==> (#[trigger] old(acc).deep_view()[i]).count
                >= 1 && old(acc).deep_view()[i].name.len() > 0,
        tally_of(old(acc).deep_view(), name@) < usize::MAX,
    ensures
        distinct_names(final(acc).deep_view()),
        forall|i: int|
            0 <= i < final(acc).deep_view().len() ==> (#[trigger] final(acc).deep_view()[i]).count
                >= 1 && final(acc).deep_view()[i].name.len() > 0,
        tally_of(final(acc).deep_view(), name@) == tally_of(old(acc).deep_view(), name@) + 1,
        forall|n2: Seq<char>|
            n2 != name@ ==> #[trigger] tally_of(final(acc).deep_view(), n2) == tally_of(
                old(acc).deep_view(),
                n2,
            ),
{
    let n = acc.len();
    let ghost rows0 = acc.deep_view();
    let mut j: usize = 0;
    while j < n
        invariant
            j <= n,
            n == acc@.len(),
            acc.deep_view() == rows0,
            rows0 == old(acc).deep_view(),
            name@.len() > 0,
            distinct_names(rows0),
            forall|i: int|
                0 <= i < rows0.len() ==> (#[trigger] rows0[i]).count >= 1 && rows0[i].name.len()
                    > 0,
            tally_of(rows0, name@) < usize::MAX,
            forall|i: int| 0 <= i < j ==> (#[trigger] rows0[i]).name != name@,
        decreases n - j,
    {
        if acc[j].name == *name {
            proof {
                assert(rows0[j as int].name == name@);
                lemma_tally_present(rows0, j as int);
            }
            let count = acc[j].count;
            let row = IfaceCount { name: acc[j].name.clone(), count: count + 1 };
            let _shifted = acc.remove(j);
            acc.insert(j, row);
            proof {
                let rows1 = acc.deep_view();
                assert(rows1.len() == rows0.len());
                assert forall|i: int| 0 <= i < rows1.len() implies #[trigger] rows1[i] == (
                if i == j {
                    IfaceCountSpec { name: name@, count: rows0[j as int].count + 1 }
                } else {
                    rows0[i]
                }) by {}
                assert(distinct_names(rows1)) by {
                    assert(forall|i: int|
                        0 <= i < rows1.len() ==> (#[trigger] rows1[i]).name == rows0[i].name);
                }
                lemma_tally_present(rows1, j as int);
                assert forall|n2: Seq<char>| n2 != name@ implies #[trigger] tally_of(rows1, n2)
                    == tally_of(rows0, n2) by {
                    lemma_tally_same_names(rows0, rows1, n2);
                }
            }
            return ;
        }
        j = j + 1;
    }
    let ghost pre = acc.deep_view();
    acc.push(IfaceCount { name: name.clone(), count: 1 });
    proof {
        assert(pre == rows0);
        let row = IfaceCountSpec { name: name@, count: 1 };
        let rows1 = acc.deep_view();
        assert(rows1 =~= pre.push(row));
        assert(forall|i: int| 0 <= i < pre.len() ==> (#[trigger] pre[i]).name != name@);
        lemma_tally_absent(pre, name@);
        lemma_tally_push(pre, row, name@);
        assert(tally_of(rows1, name@) == 1);
        assert(distinct_names(rows1)) by {
            assert(forall|i: int| 0 <= i < pre.len() ==> #[trigger] rows1[i] == pre[i]);
            assert(rows1[pre.len() as int] == row);
        }
        assert forall|n2: Seq<char>| n2 != name@ implies #[trigger] tally_of(rows1, n2)
            == tally_of(pre, n2) by {
            lemma_tally_push(pre, row, n2);
        }
    }
}

/// Appending a row leaves every other name's tally alone; a name that
/// was absent takes the new row's count.
proof fn lemma_tally_push(rows: Seq<IfaceCountSpec>, row: IfaceCountSpec, name: Seq<char>)
    ensures
        row.name != name ==> tally_of(rows.push(row), name) == tally_of(rows, name),
        (row.name == name && (forall|i: int|
            0 <= i < rows.len() ==> (#[trigger] rows[i]).name != name)) ==> tally_of(
            rows.push(row),
            name,
        ) == row.count,
    decreases rows.len(),
{
    let p = rows.push(row);
    assert(p.len() == rows.len() + 1);
    if rows.len() == 0 {
        assert(p[0] == row);
        assert(p.drop_first() =~= Seq::<IfaceCountSpec>::empty());
        if row.name != name {
            assert(tally_of(p, name) == tally_of(p.drop_first(), name));
            assert(tally_of(p, name) == 0);
        } else {
            assert(tally_of(p, name) == row.count);
        }
    } else {
        assert(p[0] == rows[0]);
        let rest = rows.drop_first();
        assert(p.drop_first() =~= rest.push(row));
        assert(forall|i: int| 0 <= i < rest.len() ==> #[trigger] rest[i] == rows[i + 1]);
        lemma_tally_push(rest, row, name);
        if rows[0].name == name {
            assert(tally_of(p, name) == rows[0].count);
            assert(tally_of(rows, name) == rows[0].count);
        } else {
            assert(tally_of(p, name) == tally_of(p.drop_first(), name));
            assert(p.drop_first() == rest.push(row));
            assert(tally_of(rows, name) == tally_of(rest, name));
        }
    }
}

/// Two row sequences with pointwise equal names and counts have equal
/// tallies.
proof fn lemma_tally_same_names(a: Seq<IfaceCountSpec>, b: Seq<IfaceCountSpec>, name: Seq<char>)
    requires
        a.len() == b.len(),
        forall|i: int|
            0 <= i < a.len() ==> ((#[trigger] a[i]).name == b[i].name && (a[i].name == name
                ==> a[i].count == b[i].count)),
    ensures
        tally_of(a, name) == tally_of(b, name),
    decreases a.len(),
{
    if a.len() > 0 {
        assert(forall|i: int|
            0 <= i < a.drop_first().len() ==> #[trigger] a.drop_first()[i] == a[i + 1]
                && b.drop_first()[i] == b[i + 1]);
        lemma_tally_same_names(a.drop_first(), b.drop_first(), name);
    }
}

/// The row order used for the catalogue: higher count first, ties by
/// ascending name.
pub open spec fn row_before(a: IfaceCountSpec, b: IfaceCountSpec) -> bool {
    a.count > b.count || (a.count == b.count && crate::text::lex_lt(a.name, b.name))
}

fn row_before_ex(a: &IfaceCount, b: &IfaceCount) -> (r: bool)
    ensures
        r == row_before(a@, b@),
{
    if a.count > b.count {
        true
    } else if a.count == b.count {
        crate::text::lex_lt_chars(&chars_of(a.name.as_str()), &chars_of(b.name.as_str()))
    } else {
        false
    }
}

/// Rows with different names are strictly ordered one way or the
/// other.
proof fn lemma_row_order_total(a: IfaceCountSpec, b: IfaceCountSpec)
    requires
        a.name != b.name,
    ensures
        row_before(a, b) || row_before(b, a),
{
    if a.count == b.count {
        crate::text::lemma_lex_lt_connected(a.name, b.name);
    }
}

proof fn lemma_row_order_transitive(a: IfaceCountSpec, b: IfaceCountSpec, c: IfaceCountSpec)
    requires
        row_before(a, b),
        row_before(b, c),
    ensures
        row_before(a, c),
{
    if a.count == b.count && b.count == c.count {
        crate::text::lemma_lex_lt_transitive(a.name, b.name, c.name);
    }
}

/// A name's tally is nonzero only when some row carries the name.
proof fn lemma_tally_nonzero_present(rows: Seq<IfaceCountSpec>, name: Seq<char>)
    requires
        tally_of(rows, name) != 0,
    ensures
        exists|k: int| 0 <= k < rows.len() && (#[trigger] rows[k]).name == name,
{
    if forall|k: int| 0 <= k < rows.len() ==> (#[trigger] rows[k]).name != name {
        lemma_tally_absent(rows, name);
    }
}

/// The interface catalogue a refresh must produce for an entry
/// collection: nonempty names that occur, each exactly once, every
/// occurring name present, ordered by descending count then ascending
/// name.
pub open spec fn catalogue_ok(es: Seq<EntrySpec>, opts: Seq<Seq<char>>) -> bool {
    &&& forall|k: int|
        0 <= k < opts.len() ==> (#[trigger] opts[k]).len() > 0 && iface_count(es, opts[k]) > 0
    &&& forall|j: int, k: int| 0 <= j < k < opts.len() ==> opts[j] != opts[k]
    &&& forall|name: Seq<char>| iface_count(es, name) > 0 ==> opts.contains(name)
    &&& forall|j: int, k: int|
        0 <= j < k < opts.len() ==> cat_before(es, #[trigger] opts[j], #[trigger] opts[k])
}

/// Whether a catalogue still lists a name.
fn contains_name(opts: &Vec<String>, name: &String) -> (r: bool)
    ensures
        r == opts.deep_view().contains(name@),
{
    let n = opts.len();
    let mut i: usize = 0;
    while i < n
        invariant
            i <= n,
            n == opts@.len(),
            forall|j: int| 0 <= j < i ==> opts.deep_view()[j] != name@,
        decreases n - i,
    {
        if opts[i] == *name {
            proof {
                assert(opts.deep_view()[i as int] == name@);
            }
            return true;
        }
        i = i + 1;
    }
    proof {
        if opts.deep_view().contains(name@) {
            let k = choose|k: int| 0 <= k < opts.deep_view().len() && opts.deep_view()[k] == name@;
            assert(opts.deep_view()[k] != name@);
        }
    }
    false
}

impl Viewer {
    /// Rebuilds the interface catalogue from the current entries:
    /// every nonempty `IN` and `OUT` name counted over all entries,
    /// ordered by descending count with ties broken by ascending name.
    /// A previously selected interface is kept when it still occurs;
    /// otherwise the default wide-area interface is chosen.
    pub fn refresh_interface_options(&mut self, previous: Option<String>)
        requires
            old(self)@.entries.len() <= usize::MAX / 2,
        ensures
            final(self)@ == (ViewerSpec {
                interface_options: final(self)@.interface_options,
                filter: (ViewFilterSpec {
                    selected_interface: final(self)@.filter.selected_interface,
                    ..old(self)@.filter
                }),
                ..old(self)@
            }),
            catalogue_ok(old(self)@.entries, final(self)@.interface_options),
            final(self)@.filter.selected_interface == (match previous.deep_view() {
                Some(p) => if final(self)@.interface_options.contains(p) {
                    Some(p)
                } else {
                    crate::classify::spec_default_wan(final(self)@.interface_options)
                },
                None => crate::classify::spec_default_wan(final(self)@.interface_options),
            }),
    {
        let ghost es = self@.entries;
        let n = self.entries.len();
        let mut acc: Vec<IfaceCount> = Vec::new();
        let mut i: usize = 0;
        proof {
            assert(es.subrange(0, 0) =~= Seq::<EntrySpec>::empty());
            assert(forall|name: Seq<char>|
                tally_of(acc.deep_view(), name) == 0 && iface_count(es.subrange(0, 0), name) == 0);
        }
        while i < n
            invariant
                i <= n,
                n == self.entries@.len(),
                self@ == old(self)@,
                es == self@.entries,
                n <= usize::MAX / 2,
                distinct_names(acc.deep_view()),
                forall|k: int|
                    0 <= k < acc.deep_view().len() ==> (#[trigger] acc.deep_view()[k]).count >= 1
                        && acc.deep_view()[k].name.len() > 0,
                forall|name: Seq<char>|
                    #[trigger] tally_of(acc.deep_view(), name) == iface_count(
                        es.subrange(0, i as int),
                        name,
                    ),
            decreases n - i,
        {
            let ghost pre = es.subrange(0, i as int);
            let ghost e = es[i as int];
            proof {
                assert(self.entries.deep_view()[i as int] == self.entries@[i as int]@);
            }
            let ghost tally_before_in = acc.deep_view();
            match &self.entries[i].in_iface {
                Some(nm) => {
                    if nm.as_str().unicode_len() > 0 {
                        proof {
                            lemma_iface_count_bound(pre, nm@);
                        }
                        bump_count(&mut acc, nm);
                    }
                },
                None => {},
            }
            proof {
                assert forall|name: Seq<char>| #[trigger] tally_of(acc.deep_view(), name)
                    == iface_count(pre, name) + (if e.in_iface == Some(name) && name.len() > 0 {
                    1int
                } else {
                    0int
                }) by {
                    if !(e.in_iface matches Some(x) && x.len() > 0) {
                        assert(acc.deep_view() == tally_before_in);
                    }
                }
            }
            let ghost tally_mid = acc.deep_view();
            match &self.entries[i].out_iface {
                Some(nm) => {
                    if nm.as_str().unicode_len() > 0 {
                        proof {
                            lemma_iface_count_bound(pre, nm@);
                        }
                        bump_count(&mut acc, nm);
                    }
                },
                None => {},
            }
            proof {
                assert forall|name: Seq<char>| #[trigger] tally_of(acc.deep_view(), name)
                    == iface_count(pre, name) + count_in_entry(e, name) by {
                    if !(e.out_iface matches Some(x) && x.len() > 0) {
                        assert(acc.deep_view() == tally_mid);
                    }
                }
                let pre2 = es.subrange(0, i + 1);
                assert(pre2.drop_last() =~= pre);
                assert(pre2.last() == e);
                assert(forall|name: Seq<char>|
                    #[trigger] iface_count(pre2, name) == iface_count(pre, name) + count_in_entry(
                        e,
                        name,
                    ));
            }
            i = i + 1;
        }
        proof {
            assert(es.subrange(0, n as int) =~= es);
        }
        let ghost tally0 = acc.deep_view();

        // selection sort by descending count, ties by ascending name
        let mut sorted: Vec<IfaceCount> = Vec::new();
        while acc.len() > 0
            invariant
                distinct_names(sorted.deep_view()),
                distinct_names(acc.deep_view()),
                forall|j: int, k: int|
                    0 <= j < sorted.deep_view().len() && 0 <= k < acc.deep_view().len() ==> (
                    #[trigger] sorted.deep_view()[j]).name != (#[trigger] acc.deep_view()[k]).name,
                forall|k: int|
                    0 <= k < sorted.deep_view().len() ==> (#[trigger] sorted.deep_view()[k]).count
                        >= 1 && sorted.deep_view()[k].name.len() > 0,
                forall|k: int|
                    0 <= k < acc.deep_view().len() ==> (#[trigger] acc.deep_view()[k]).count >= 1
                        && acc.deep_view()[k].name.len() > 0,
                forall|name: Seq<char>|
                    #[trigger] tally_of(sorted.deep_view(), name) + tally_of(acc.deep_view(), name)
                        == tally_of(tally0, name),
                forall|j: int, k: int|
                    0 <= j < k < sorted.deep_view().len() ==> row_before(
                        #[trigger] sorted.deep_view()[j],
                        #[trigger] sorted.deep_view()[k],
                    ),
                forall|j: int, k: int|
                    0 <= j < sorted.deep_view().len() && 0 <= k < acc.deep_view().len()
                        ==> row_before(
                        #[trigger] sorted.deep_view()[j],
                        #[trigger] acc.deep_view()[k],
                    ),
            decreases acc.len(),
        {
            let m = acc.len();
            let mut b: usize = 0;
            let mut k: usize = 1;
            while k < m
                invariant
                    b < k <= m,
                    m == acc@.len(),
                    distinct_names(acc.deep_view()),
                    forall|t: int|
                        0 <= t < k ==> t == b || row_before(
                            acc.deep_view()[b as int],
                            #[trigger] acc.deep_view()[t],
                        ),
                decreases m - k,
            {
                proof {
                    assert(acc.deep_view()[k as int] == acc@[k as int]@);
                    assert(acc.deep_view()[b as int] == acc@[b as int]@);
                }
                if row_before_ex(&acc[k], &acc[b]) {
                    proof {
                        assert forall|t: int|
                            0 <= t < k + 1 implies t == k || row_before(
                            acc.deep_view()[k as int],
                            #[trigger] acc.deep_view()[t],
                        ) by {
                            if t != k {
                                if t == b {
                                } else {
                                    lemma_row_order_transitive(
                                        acc.deep_view()[k as int],
                                        acc.deep_view()[b as int],
                                        acc.deep_view()[t],
                                    );
                                }
                            }
                        }
                    }
                    b = k;
                } else {
                    proof {
                        assert(acc.deep_view()[k as int].name != acc.deep_view()[b as int].name);
                        lemma_row_order_total(
                            acc.deep_view()[b as int],
                            acc.deep_view()[k as int],
                        );
                    }
                }
                k = k + 1;
            }
            let ghost acc_pre = acc.deep_view();
            let row = acc.swap_remove(b);
            let ghost acc_post = acc.deep_view();
            let ghost sorted_pre = sorted.deep_view();
            proof {
                assert(row@ == acc_pre[b as int]);
                // every remaining row is one of the old rows, at a known index
                assert forall|t: int| 0 <= t < acc_post.len() implies #[trigger] acc_post[t] == (
                if t == b && b < acc_pre.len() - 1 {
                    acc_pre[acc_pre.len() - 1]
                } else {
                    acc_pre[t]
                }) by {}
                assert(distinct_names(acc_post));
                assert forall|name: Seq<char>| #[trigger] tally_of(acc_post, name) == (if name
                    == row@.name {
                    0int
                } else {
                    tally_of(acc_pre, name)
                }) by {
                    if name == row@.name {
                        assert forall|t: int|
                            0 <= t < acc_post.len() implies (#[trigger] acc_post[t]).name
                            != name by {}
                        lemma_tally_absent(acc_post, name);
                    } else {
                        if tally_of(acc_pre, name) != 0 {
                            lemma_tally_nonzero_present(acc_pre, name);
                            let w = choose|w: int|
                                0 <= w < acc_pre.len() && (#[trigger] acc_pre[w]).name == name;
                            lemma_tally_present(acc_pre, w);
                            let w2 = if w == acc_pre.len() - 1 {
                                b as int
                            } else {
                                w
                            };
                            assert(acc_post[w2].name == name);
                            lemma_tally_present(acc_post, w2);
                        } else {
                            if tally_of(acc_post, name) != 0 {
                                lemma_tally_nonzero_present(acc_post, name);
                                let w = choose|w: int|
                                    0 <= w < acc_post.len() && (#[trigger] acc_post[w]).name
                                        == name;
                                let src = if w == b && b < acc_pre.len() - 1 {
                                    acc_pre.len() - 1
                                } else {
                                    w
                                };
                                assert(acc_pre[src].name == name);
                                lemma_tally_present(acc_pre, src);
                            }
                        }
                    }
                }
                // the minimum goes before everything that remains
                assert forall|t: int| 0 <= t < acc_post.len() implies row_before(
                    row@,
                    #[trigger] acc_post[t],
                ) by {
                    let src = if t == b && b < acc_pre.len() - 1 {
                        acc_pre.len() - 1
                    } else {
                        t as int
                    };
                    assert(acc_post[t] == acc_pre[src]);
                    assert(src != b);
                    assert(row_before(acc_pre[b as int], acc_pre[src]));
                }
            }
            sorted.push(row);
            proof {
                let sorted_post = sorted.deep_view();
                assert(sorted_post =~= sorted_pre.push(acc_pre[b as int]));
                assert(forall|j: int|
                    0 <= j < sorted_pre.len() ==> #[trigger] sorted_post[j] == sorted_pre[j]);
                assert(sorted_post[sorted_pre.len() as int] == acc_pre[b as int]);
                lemma_tally_present(acc_pre, b as int);
                assert forall|name: Seq<char>| #[trigger] tally_of(sorted_post, name) + tally_of(
                    acc_post,
                    name,
                ) == tally_of(tally0, name) by {
                    lemma_tally_push(sorted_pre, acc_pre[b as int], name);
                    if name == acc_pre[b as int].name {
                        assert(tally_of(sorted_pre, name) == 0) by {
                            if tally_of(sorted_pre, name) != 0 {
                                lemma_tally_nonzero_present(sorted_pre, name);
                            }
                        }
                        assert(forall|t: int|
                            0 <= t < sorted_pre.len() ==> (#[trigger] sorted_pre[t]).name != name);
                    }
                }
            }
        }
        proof {
            assert(acc.deep_view().len() == 0);
            assert forall|name: Seq<char>| #[trigger] tally_of(sorted.deep_view(), name)
                == tally_of(tally0, name) by {}
        }

        // extract the ordered names
        let ghost srows = sorted.deep_view();
        let mut opts: Vec<String> = Vec::new();
        let mut t: usize = 0;
        let sn = sorted.len();
        while t < sn
            invariant
                t <= sn,
                sn == sorted@.len(),
                sorted.deep_view() == srows,
                opts.deep_view().len() == t,
                forall|j: int| 0 <= j < t ==> #[trigger] opts.deep_view()[j] == srows[j].name,
            decreases sn - t,
        {
            let ghost pre_opts = opts.deep_view();
            proof {
                assert(sorted.deep_view()[t as int] == sorted@[t as int]@);
            }
            opts.push(sorted[t].name.clone());
            t = t + 1;
            proof {
                assert(opts.deep_view() =~= pre_opts.push(srows[t - 1].name));
            }
        }

        proof {
            let odv = opts.deep_view();
            assert forall|k: int| 0 <= k < odv.len() implies (#[trigger] odv[k]).len() > 0
                && iface_count(es, odv[k]) > 0 by {
                lemma_tally_present(srows, k);
            }
            assert forall|name: Seq<char>| iface_count(es, name) > 0 implies odv.contains(
                name,
            ) by {
                assert(tally_of(srows, name) == iface_count(es, name));
                lemma_tally_nonzero_present(srows, name);
                let w = choose|w: int| 0 <= w < srows.len() && (#[trigger] srows[w]).name == name;
                assert(odv[w] == name);
            }
            assert forall|j: int, k: int| 0 <= j < k < odv.len() implies cat_before(
                es,
                #[trigger] odv[j],
                #[trigger] odv[k],
            ) by {
                lemma_tally_present(srows, j);
                lemma_tally_present(srows, k);
                assert(row_before(srows[j], srows[k]));
            }
            assert(catalogue_ok(es, odv));
        }

        self.interface_options = opts;
        match previous {
            Some(p) => {
                if contains_name(&self.interface_options, &p) {
                    self.filter.selected_interface = Some(p);
                } else {
                    let d = crate::classify::default_wan_interface(&self.interface_options);
                    self.filter.selected_interface = d;
                }
            },
            None => {
                let d = crate::classify::default_wan_interface(&self.interface_options);
                self.filter.selected_interface = d;
            },
        }
    }
}


/// The position in a visible sequence of the first entry whose `raw`
/// equals the given text.
pub open spec fn spec_position_of_raw(
    entries: Seq<EntrySpec>,
    filtered: Seq<int>,
    raw: Seq<char>,
) -> Option<int>
    decreases filtered.len(),
{
    if filtered.len() == 0 {
        None
    } else if entries[filtered[0]].raw == raw {
        Some(0)
    } else {
        match spec_position_of_raw(entries, filtered.drop_first(), raw) {
            Some(p) => Some(p + 1),
            None => None,
        }
    }
}

pub proof fn lemma_position_of_raw(entries: Seq<EntrySpec>, filtered: Seq<int>, raw: Seq<char>)
    ensures
        match spec_position_of_raw(entries, filtered, raw) {
            Some(p) => 0 <= p < filtered.len() && entries[filtered[p]].raw == raw && (forall|j: int|
                0 <= j < p ==> entries[#[trigger] filtered[j]].raw != raw),
            None => forall|j: int|
                0 <= j < filtered.len() ==> entries[#[trigger] filtered[j]].raw != raw,
        },
    decreases filtered.len(),
{
    if filtered.len() > 0 && entries[filtered[0]].raw != raw {
        let rest = filtered.drop_first();
        assert(forall|j: int| 0 <= j < rest.len() ==> #[trigger] rest[j] == filtered[j + 1]);
        lemma_position_of_raw(entries, rest, raw);
        match spec_position_of_raw(entries, rest, raw) {
            Some(p) => {
                assert(filtered[p + 1] == rest[p]);
                assert forall|j: int| 0 <= j < p + 1 implies entries[#[trigger] filtered[j]].raw
                    != raw by {
                    if j > 0 {
                        assert(filtered[j] == rest[j - 1]);
                    }
                }
            },
            None => {
                assert forall|j: int| 0 <= j < filtered.len() implies entries[
                    #[trigger] filtered[j]
                ].raw != raw by {
                    if j > 0 {
                        assert(filtered[j] == rest[j - 1]);
                    }
                }
            },
        }
    }
}

/// The position of the first visible entry whose `raw` equals the
/// given text.
pub fn selected_position_for_raw(
    entries: &Vec<LogEntry>,
    filtered_indices: &Vec<usize>,
    raw: &str,
) -> (r: Option<usize>)
    requires
        forall|j: int|
            0 <= j < filtered_indices@.len() ==> (#[trigger] filtered_indices@[j])
                < entries@.len(),
    ensures
        ({
            let fseq = filtered_indices@.map_values(|u: usize| u as int);
            match r {
                Some(p) => spec_position_of_raw(entries.deep_view(), fseq, raw@) == Some(p as int),
                None => spec_position_of_raw(entries.deep_view(), fseq, raw@) is None,
            }
        }),
{
    let ghost fseq = filtered_indices@.map_values(|u: usize| u as int);
    proof {
        lemma_position_of_raw(entries.deep_view(), fseq, raw@);
    }
    let target = chars_of(raw);
    let n = filtered_indices.len();
    let mut i: usize = 0;
    while i < n
        invariant
            i <= n,
            n == filtered_indices@.len(),
            fseq == filtered_indices@.map_values(|u: usize| u as int),
            target@ == raw@,
            forall|j: int|
                0 <= j < filtered_indices@.len() ==> (#[trigger] filtered_indices@[j])
                    < entries@.len(),
            forall|j: int| 0 <= j < i ==> entries.deep_view()[#[trigger] fseq[j]].raw != raw@,
        decreases n - i,
    {
        let idx = filtered_indices[i];
        let line = chars_of(entries[idx].raw.as_str());
        proof {
            assert(fseq[i as int] == idx as int);
            assert(entries.deep_view()[idx as int] == entries@[idx as int]@);
        }
        if eq_chars(&line, &target) {
            proof {
                assert(entries.deep_view()[fseq[i as int]].raw == raw@);
                lemma_position_of_raw(entries.deep_view(), fseq, raw@);
                match spec_position_of_raw(entries.deep_view(), fseq, raw@) {
                    Some(p) => {
                        if p < i {
                            assert(entries.deep_view()[fseq[p]].raw != raw@);
                        }
                        if p > i {
                            assert(entries.deep_view()[fseq[i as int]].raw != raw@);
                        }
                    },
                    None => {
                        assert(entries.deep_view()[fseq[i as int]].raw != raw@);
                    },
                }
            }
            return Some(i);
        }
        proof {
            assert(entries.deep_view()[fseq[i as int]].raw != raw@);
        }
        i = i + 1;
    }
    proof {
        lemma_position_of_raw(entries.deep_view(), fseq, raw@);
    }
    None
}

/// The selection after a reload: the previously selected entry's new
/// position when its `raw` text is still visible, else the previous
/// numeric position clamped to the new visible length.
pub open spec fn spec_new_selected(
    entries: Seq<EntrySpec>,
    vf: ViewFilterSpec,
    prev_raw: Option<Seq<char>>,
    prev_sel: int,
) -> int {
    let vis = spec_visible_indices(entries, vf);
    match prev_raw {
        Some(r) => match spec_position_of_raw(entries, vis, r) {
            Some(p) => p,
            None => clamp_sel(prev_sel, vis.len() as int),
        },
        None => clamp_sel(prev_sel, vis.len() as int),
    }
}

/// Reload selection stability: when the previously selected entry's
/// `raw` text still names a visible entry after the reload, the
/// reconciled selection points at an entry with that same `raw` text,
/// wherever it now sits. With duplicate `raw` lines the first visible
/// match is taken, an accepted ambiguity of matching by content.
pub proof fn lemma_reload_selection_stable(
    entries: Seq<EntrySpec>,
    vf: ViewFilterSpec,
    raw: Seq<char>,
    prev_sel: int,
)
    requires
        exists|k: int|
            0 <= k < spec_visible_indices(entries, vf).len() && entries[#[trigger] spec_visible_indices(
                entries,
                vf,
            )[k]].raw == raw,
    ensures
        ({
            let vis = spec_visible_indices(entries, vf);
            let s = spec_new_selected(entries, vf, Some(raw), prev_sel);
            0 <= s < vis.len() && entries[vis[s]].raw == raw
        }),
{
    let vis = spec_visible_indices(entries, vf);
    lemma_position_of_raw(entries, vis, raw);
    match spec_position_of_raw(entries, vis, raw) {
        Some(p) => {},
        None => {
            let k = choose|k: int| 0 <= k < vis.len() && entries[#[trigger] vis[k]].raw == raw;
            assert(entries[vis[k]].raw != raw);
        },
    }
}

impl Viewer {
    /// Replaces the whole state from a fresh read of the backing file.
    /// `lines` carries the file's lines, or `None` when the file could
    /// not be read: then the collection is cleared, the selection is
    /// emptied, the fingerprint is invalidated and the failure is
    /// surfaced. On success the catalogue is rebuilt (keeping the
    /// selected interface when it survives), and the selection is
    /// reconciled: the previously selected entry is re-selected by its
    /// `raw` text when still visible, else the old position is clamped.
    pub fn apply_reload(
        &mut self,
        lines: Option<&Vec<String>>,
        fingerprint: Option<Fingerprint>,
        services: &ServiceRegistry,
    ) -> (ok: bool)
        requires
            match lines {
                Some(ls) => ls@.len() <= usize::MAX / 2,
                None => true,
            },
        ensures
            ok == (lines is Some),
            match lines {
                None => final(self)@ == (ViewerSpec {
                    entries: Seq::empty(),
                    selected: 0,
                    last_fingerprint: None,
                    read_failed: true,
                    ..old(self)@
                }),
                Some(ls) => {
                    let es = crate::parse::spec_entries(ls.deep_view(), services@);
                    let vis = spec_visible_indices(es, final(self)@.filter);
                    &&& final(self)@ == (ViewerSpec {
                        entries: es,
                        interface_options: final(self)@.interface_options,
                        filter: (ViewFilterSpec {
                            selected_interface: final(self)@.filter.selected_interface,
                            ..old(self)@.filter
                        }),
                        selected: clamp_sel(
                            spec_new_selected(
                                es,
                                final(self)@.filter,
                                spec_selected_raw(old(self)@),
                                old(self)@.selected,
                            ),
                            vis.len() as int,
                        ),
                        log_entry_scroll: if vis.len() == 0 {
                            0
                        } else {
                            old(self)@.log_entry_scroll
                        },
                        last_fingerprint: fingerprint,
                        read_failed: false,
                        ..old(self)@
                    })
                    &&& catalogue_ok(es, final(self)@.interface_options)
                    &&& final(self)@.filter.selected_interface == (match old(
                        self,
                    )@.filter.selected_interface {
                        Some(p) => if final(self)@.interface_options.contains(p) {
                            Some(p)
                        } else {
                            crate::classify::spec_default_wan(final(self)@.interface_options)
                        },
                        None => crate::classify::spec_default_wan(final(self)@.interface_options),
                    })
                },
            },
    {
        let prev_selected = self.selected;
        let prev_raw = self.current_selected_raw();
        let prev_iface = match &self.filter.selected_interface {
            Some(p) => Some(p.clone()),
            None => None,
        };
        match lines {
            None => {
                self.entries = Vec::new();
                self.selected = 0;
                self.last_fingerprint = None;
                self.read_failed = true;
                proof {
                    assert(self.entries.deep_view() =~= Seq::<EntrySpec>::empty());
                }
                false
            },
            Some(ls) => {
                let es = crate::parse::entries_from_lines(ls, services);
                proof {
                    crate::parse::lemma_parsed_upto_len(
                        ls.deep_view(),
                        services@,
                        ls.deep_view().len() as int,
                    );
                    assert(es.deep_view().len() <= ls@.len());
                }
                self.entries = es;
                self.refresh_interface_options(prev_iface);
                let filtered = self.filtered_indices();
                let len = filtered.len();
                let sel = match &prev_raw {
                    Some(raw) => {
                        match selected_position_for_raw(&self.entries, &filtered, raw.as_str()) {
                            Some(p) => {
                                proof {
                                    lemma_position_of_raw(
                                        self@.entries,
                                        filtered@.map_values(|u: usize| u as int),
                                        raw@,
                                    );
                                }
                                p
                            },
                            None => {
                                if len == 0 {
                                    0
                                } else if prev_selected < len {
                                    prev_selected
                                } else {
                                    len - 1
                                }
                            },
                        }
                    },
                    None => {
                        if len == 0 {
                            0
                        } else if prev_selected < len {
                            prev_selected
                        } else {
                            len - 1
                        }
                    },
                };
                self.selected = sel;
                self.sync_selection_with_len(len);
                self.last_fingerprint = fingerprint;
                self.read_failed = false;
                true
            },
        }
    }

    /// Clears every criterion and toggle back to the initial view:
    /// local sources hidden, wide-area sources shown, all flows and
    /// directions, and the default wide-area interface selected.
    /// Reports the new match count.
    pub fn clear_filters(&mut self) -> (count: usize)
        ensures
            final(self)@ == (ViewerSpec {
                filter: (ViewFilterSpec {
                    filters: crate::filter::FiltersSpec {
                        service: Seq::empty(),
                        port: Seq::empty(),
                        ip: Seq::empty(),
                        action: Seq::empty(),
                        proto: Seq::empty(),
                        text: Seq::empty(),
                    },
                    show_local_src: false,
                    show_wan_src: true,
                    flow_filter: FlowFilter::All,
                    direction_filter: DirectionFilter::Both,
                    selected_interface: crate::classify::spec_default_wan(
                        old(self)@.interface_options,
                    ),
                }),
                selected: 0,
                log_entry_scroll: 0,
                ..old(self)@
            }),
            count == spec_visible(final(self)@).len(),
    {
        self.filter.filters = Filters::default();
        self.filter.show_local_src = false;
        self.filter.show_wan_src = true;
        self.filter.flow_filter = FlowFilter::All;
        self.filter.direction_filter = DirectionFilter::Both;
        let d = crate::classify::default_wan_interface(&self.interface_options);
        self.filter.selected_interface = d;
        self.selected = 0;
        self.log_entry_scroll = 0;
        proof {
            assert(self@.filter.filters.service =~= Seq::<char>::empty());
            assert(self@.filter.filters.port =~= Seq::<char>::empty());
            assert(self@.filter.filters.ip =~= Seq::<char>::empty());
            assert(self@.filter.filters.action =~= Seq::<char>::empty());
            assert(self@.filter.filters.proto =~= Seq::<char>::empty());
            assert(self@.filter.filters.text =~= Seq::<char>::empty());
        }
        let vis = self.filtered_indices();
        vis.len()
    }
}


/// The position of a name in a catalogue, or -1 when absent.
pub open spec fn opt_index_of(options: Seq<Seq<char>>, name: Seq<char>) -> int
    decreases options.len(),
{
    if options.len() == 0 {
        -1
    } else if options[0] == name {
        0
    } else {
        let r = opt_index_of(options.drop_first(), name);
        if r < 0 {
            -1
        } else {
            1 + r
        }
    }
}

pub proof fn lemma_opt_index_of(options: Seq<Seq<char>>, name: Seq<char>)
    ensures
        opt_index_of(options, name) == -1 ==> (forall|j: int|
            0 <= j < options.len() ==> options[j] != name),
        opt_index_of(options, name) >= 0 ==> {
            let r = opt_index_of(options, name);
            &&& r < options.len()
            &&& options[r] == name
            &&& forall|j: int| 0 <= j < r ==> options[j] != name
        },
    decreases options.len(),
{
    if options.len() > 0 && options[0] != name {
        let rest = options.drop_first();
        assert(forall|j: int| 0 <= j < rest.len() ==> #[trigger] rest[j] == options[j + 1]);
        lemma_opt_index_of(rest, name);
        if opt_index_of(options, name) == -1 {
            assert forall|j: int| 0 <= j < options.len() implies options[j] != name by {
                if j > 0 {
                    assert(options[j] == rest[j - 1]);
                }
            }
        } else {
            let r = opt_index_of(options, name);
            assert forall|j: int| 0 <= j < r implies options[j] != name by {
                if j > 0 {
                    assert(options[j] == rest[j - 1]);
                }
            }
        }
    }
}

/// The position of a name in the catalogue.
fn find_name_index(options: &Vec<String>, name: &String) -> (r: Option<usize>)
    ensures
        match r {
            Some(i) => opt_index_of(options.deep_view(), name@) == i,
            None => opt_index_of(options.deep_view(), name@) == -1,
        },
{
    let ghost opts = options.deep_view();
    proof {
        lemma_opt_index_of(opts, name@);
    }
    let n = options.len();
    let mut i: usize = 0;
    while i < n
        invariant
            i <= n,
            n == options@.len(),
            opts == options.deep_view(),
            forall|j: int| 0 <= j < i ==> opts[j] != name@,
        decreases n - i,
    {
        proof {
            assert(opts[i as int] == options@[i as int]@);
        }
        if options[i] == *name {
            proof {
                lemma_opt_index_of(opts, name@);
                let r = opt_index_of(opts, name@);
                if r == -1 {
                    assert(opts[i as int] != name@);
                }
                if 0 <= r < i {
                    assert(opts[r] != name@);
                }
                if r > i {
                    assert(opts[i as int] != name@);
                }
            }
            return Some(i);
        }
        i = i + 1;
    }
    proof {
        lemma_opt_index_of(opts, name@);
        if opt_index_of(opts, name@) >= 0 {
            assert(opts[opt_index_of(opts, name@)] == name@);
        }
    }
    None
}

impl Viewer {
    /// Steps the interface selection through the catalogue, forward or
    /// backward, with "all interfaces" between the last and the first
    /// entry. An empty catalogue clears the selection and changes
    /// nothing else. Reports the new match count.
    pub fn cycle_interface(&mut self, forward: bool) -> (count: usize)
        ensures
            count == spec_visible(final(self)@).len(),
            old(self)@.interface_options.len() == 0 ==> final(self)@ == (ViewerSpec {
                filter: (ViewFilterSpec { selected_interface: None, ..old(self)@.filter }),
                ..old(self)@
            }),
            old(self)@.interface_options.len() > 0 ==> ({
                let opts = old(self)@.interface_options;
                let len = opts.len() as int;
                let idx = match old(self)@.filter.selected_interface {
                    Some(sel) => opt_index_of(opts, sel),
                    None => -1,
                };
                let idx2 = if forward {
                    if idx >= len - 1 {
                        -1
                    } else {
                        idx + 1
                    }
                } else if idx < 0 {
                    len - 1
                } else {
                    idx - 1
                };
                final(self)@ == (ViewerSpec {
                    filter: (ViewFilterSpec {
                        selected_interface: if idx2 < 0 {
                            None
                        } else {
                            Some(opts[idx2])
                        },
                        ..old(self)@.filter
                    }),
                    selected: 0,
                    log_entry_scroll: 0,
                    ..old(self)@
                })
            }),
    {
        let n = self.interface_options.len();
        if n == 0 {
            self.filter.selected_interface = None;
            let vis = self.filtered_indices();
            return vis.len();
        }
        let idx_found: Option<usize> = match &self.filter.selected_interface {
            Some(sel) => {
                proof {
                    lemma_opt_index_of(self@.interface_options, sel@);
                }
                find_name_index(&self.interface_options, sel)
            },
            None => None,
        };
        let next: Option<usize> = if forward {
            match idx_found {
                Some(i) => if i >= n - 1 {
                    None
                } else {
                    Some(i + 1)
                },
                None => Some(0),
            }
        } else {
            match idx_found {
                Some(i) => if i == 0 {
                    None
                } else {
                    Some(i - 1)
                },
                None => Some(n - 1),
            }
        };
        let iface = match next {
            Some(i) => {
                proof {
                    assert(self.interface_options.deep_view()[i as int]
                        == self.interface_options@[i as int]@);
                }
                Some(self.interface_options[i].clone())
            },
            None => None,
        };
        self.set_selected_interface(iface);
        let vis = self.filtered_indices();
        vis.len()
    }

    /// The trimmed source address of the selected visible entry;
    /// absent when no row is visible or the entry has no nonempty
    /// source address.
    pub fn selected_src_ip(&self) -> (r: Option<String>)
        ensures
            ({
                let vis = spec_visible(self@);
                if vis.len() == 0 {
                    r is None
                } else {
                    let ip = self@.entries[vis[clamp_sel(self@.selected, vis.len() as int)]].src_ip;
                    match r {
                        Some(s) => ip matches Some(raw) && s@ == crate::text::trim_seq(raw)
                            && s@.len() > 0,
                        None => ip is None || crate::text::trim_seq(ip->Some_0).len() == 0,
                    }
                }
            }),
    {
        let vis = self.filtered_indices();
        if vis.len() == 0 {
            return None;
        }
        let s = if self.selected < vis.len() {
            self.selected
        } else {
            vis.len() - 1
        };
        let idx = vis[s];
        proof {
            assert(vis@.map_values(|u: usize| u as int)[s as int] == idx as int);
        }
        match &self.entries[idx].src_ip {
            None => None,
            Some(raw) => {
                let t = crate::text::trim_chars(&chars_of(raw.as_str()));
                if t.len() == 0 {
                    None
                } else {
                    Some(crate::text::string_from_chars(&t))
                }
            },
        }
    }
}

} // verus!
