use vstd::prelude::*;

verus! {

/// The icon of a launcher item: its kind and a path.
#[derive(Clone, Debug)]
pub struct AlfredIcon {
    pub icon_type: String,
    pub path: String,
}

/// One launcher item.
#[derive(Clone, Debug)]
pub struct AlfredItem {
    pub uid: String,
    pub item_type: String,
    pub title: String,
    pub subtitle: String,
    pub arg: String,
    pub autocomplete: String,
    pub icon: AlfredIcon,
}

/// The list handed to the launcher.
#[derive(Clone, Debug)]
pub struct AlfredOutput {
    pub items: Vec<AlfredItem>,
}

pub struct ItemView {
    pub uid: Seq<char>,
    pub item_type: Seq<char>,
    pub title: Seq<char>,
    pub subtitle: Seq<char>,
    pub arg: Seq<char>,
    pub autocomplete: Seq<char>,
    pub icon_type: Seq<char>,
    pub icon_path: Seq<char>,
}

impl View for AlfredItem {
    type V = ItemView;

    open spec fn view(&self) -> ItemView {
        ItemView {
            uid: self.uid@,
            item_type: self.item_type@,
            title: self.title@,
            subtitle: self.subtitle@,
            arg: self.arg@,
            autocomplete: self.autocomplete@,
            icon_type: self.icon.icon_type@,
            icon_path: self.icon.path@,
        }
    }
}

impl View for AlfredOutput {
    type V = Seq<ItemView>;

    open spec fn view(&self) -> Seq<ItemView> {
        self.items@.map_values(|i: AlfredItem| i@)
    }
}

pub open spec fn alert_icon_path() -> Seq<char> {
    "/System/Library/CoreServices/CoreTypes.bundle/Contents/Resources/AlertNoteIcon.icns"@
}

/// The placeholder item that explains why nothing was found.
pub open spec fn no_results_item(title: Seq<char>, subtitle: Seq<char>) -> ItemView {
    ItemView {
        uid: "no-results"@,
        item_type: "default"@,
        title,
        subtitle,
        arg: Seq::<char>::empty(),
        autocomplete: Seq::<char>::empty(),
        icon_type: "default"@,
        icon_path: alert_icon_path(),
    }
}

impl AlfredOutput {
    pub fn new() -> (r: Self)
        ensures
            r@.len() == 0,
    {
        let r = AlfredOutput { items: Vec::new() };
        proof {
            assert(r@ =~= Seq::<ItemView>::empty());
        }
        r
    }

    pub fn add_item(&mut self, item: AlfredItem)
        ensures
            final(self)@ == old(self)@.push(item@),
    {
        let ghost prev = self@;
        self.items.push(item);
        proof {
            assert(self@ =~= prev.push(item@));
        }
    }

    /// Appends the placeholder item with the given explanation.
    pub fn add_no_results(&mut self, title: &str, subtitle: &str)
        ensures
            final(self)@ == old(self)@.push(no_results_item(title@, subtitle@)),
    {
        let item = AlfredItem {
            uid: String::from_str("no-results"),
            item_type: String::from_str("default"),
            title: String::from_str(title),
            subtitle: String::from_str(subtitle),
            arg: String::new(),
            autocomplete: String::new(),
            icon: AlfredIcon {
                icon_type: String::from_str("default"),
                path: String::from_str(
                    "/System/Library/CoreServices/CoreTypes.bundle/Contents/Resources/AlertNoteIcon.icns",
                ),
            },
        };
        self.add_item(item);
    }
}

impl Default for AlfredOutput {
    fn default() -> (r: Self)
        ensures
            r@.len() == 0,
    {
        AlfredOutput::new()
    }
}

} // verus!
