//! The legend of key bindings shown in a corner of the screen.

use vstd::prelude::*;

verus! {

/// The legend widget: its labels and whether it is hidden.
#[derive(Debug, Default)]
pub struct LegendWidget {
    pub label_show: String,
    pub label_hide: String,
    pub hide: bool,
    pub highlight_active: bool,
}

/// What the legend needs of a key binding: its label, if it has one, and
/// whether it has an action that applies to the current state of the tree.
#[derive(Debug, Clone)]
pub struct BindingSummary {
    pub label: Option<String>,
    pub applicable: bool,
}

/// A line of the legend: a binding's label, and whether it is highlighted.
#[derive(Debug, Clone)]
pub struct LegendItem {
    pub label: String,
    pub highlight: bool,
}

/// The labels and highlights of legend items.
pub open spec fn legend_item_views(items: Seq<LegendItem>) -> Seq<(Seq<char>, bool)> {
    items.map_values(|it: LegendItem| (it.label@, it.highlight))
}

/// The legend lines for the bindings from index `i` on: each binding that
/// applies and has a label gives its label, highlighted where highlighting is
/// on and its index is `current`.
pub open spec fn legend_items_from(
    bindings: Seq<BindingSummary>,
    highlight_active: bool,
    current: Option<usize>,
    i: int,
) -> Seq<(Seq<char>, bool)>
    decreases bindings.len() - i,
{
    if i < 0 || i >= bindings.len() {
        Seq::empty()
    } else {
        let rest = legend_items_from(bindings, highlight_active, current, i + 1);
        if bindings[i].applicable && bindings[i].label is Some {
            seq![
                (
                    bindings[i].label->0@,
                    highlight_active && current == Some(i as usize),
                ),
            ] + rest
        } else {
            rest
        }
    }
}

impl LegendWidget {
    /// A shown legend with empty labels and no highlight.
    pub fn new() -> (w: LegendWidget)
        ensures
            w.label_show@ == Seq::<char>::empty(),
            w.label_hide@ == Seq::<char>::empty(),
            !w.hide,
            !w.highlight_active,
    {
        LegendWidget {
            label_show: String::new(),
            label_hide: String::new(),
            hide: false,
            highlight_active: false,
        }
    }

    /// Sets the labels of the legend and whether it starts hidden.
    pub fn init(&mut self, label_show: String, label_hide: String, hide: bool)
        ensures
            final(self).label_show@ == label_show@,
            final(self).label_hide@ == label_hide@,
            final(self).hide == hide,
            final(self).highlight_active == old(self).highlight_active,
    {
        self.label_show = label_show;
        self.label_hide = label_hide;
        self.hide = hide;
    }

    /// The title at the bottom of the legend: the label that shows the legend
    /// where it is hidden, the label that hides it otherwise.
    pub fn title(&self) -> (r: &String)
        ensures
            r@ == (if self.hide {
                self.label_show@
            } else {
                self.label_hide@
            }),
    {
        if self.hide {
            &self.label_show
        } else {
            &self.label_hide
        }
    }

    /// The lines of the legend for the given bindings: none where the legend
    /// is hidden; otherwise the label of each binding that has one and whose
    /// action applies, in order, highlighted where highlighting is on and the
    /// binding is the one at `current_binding_index`.
    pub fn items(&self, bindings: &Vec<BindingSummary>, current_binding_index: Option<usize>) -> (r:
        Vec<LegendItem>)
        ensures
            self.hide ==> r@.len() == 0,
            !self.hide ==> legend_item_views(r@) == legend_items_from(
                bindings@,
                self.highlight_active,
                current_binding_index,
                0,
            ),
    {
        let mut items: Vec<LegendItem> = Vec::new();
        if self.hide {
            return items;
        }
        let n = bindings.len();
        let mut i: usize = 0;
        while i < n
            invariant
                n == bindings@.len(),
                i <= n,
                legend_items_from(bindings@, self.highlight_active, current_binding_index, 0)
                    == legend_item_views(items@) + legend_items_from(
                    bindings@,
                    self.highlight_active,
                    current_binding_index,
                    i as int,
                ),
            decreases n - i,
        {
            let ghost before = legend_item_views(items@);
            let b = &bindings[i];
            if b.applicable {
                match &b.label {
                    Some(label) => {
                        let highlight = self.highlight_active && match current_binding_index {
                            Some(k) => k == i,
                            None => false,
                        };
                        items.push(LegendItem { label: label.clone(), highlight });
                        assert(legend_item_views(items@) =~= before.push(
                            (label@, highlight),
                        ));
                    },
                    None => {},
                }
            }
            let ghost rest = legend_items_from(
                bindings@,
                self.highlight_active,
                current_binding_index,
                i + 1,
            );
            assert(before + legend_items_from(
                bindings@,
                self.highlight_active,
                current_binding_index,
                i as int,
            ) =~= legend_item_views(items@) + rest);
            i = i + 1;
        }
        assert(legend_item_views(items@) + Seq::<(Seq<char>, bool)>::empty() =~= legend_item_views(
            items@,
        ));
        items
    }

    /// Shows the legend if it is hidden, hides it otherwise.
    pub fn toggle_hide(&mut self)
        ensures
            final(self).hide == !old(self).hide,
            final(self).label_show@ == old(self).label_show@,
            final(self).label_hide@ == old(self).label_hide@,
            final(self).highlight_active == old(self).highlight_active,
    {
        self.hide = !self.hide;
    }
}

} // verus!
