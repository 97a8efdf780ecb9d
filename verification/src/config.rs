use vstd::prelude::*;

verus! {

/// The number of result rows that one page shows.
pub const DEFAULT_PAGE_SIZE: usize = 20;

/// Settings shared by the viewer.
pub struct Config {
    pub page_size: usize,
    pub on_test: bool,
}

/// A cell that is set at most once and then read: the first `init`
/// stores the settings, later ones leave them as they are.
pub struct ConfigSlot {
    slot: Option<Config>,
}

impl ConfigSlot {
    /// The settings held, if `init` has run.
    pub closed spec fn content(&self) -> Option<Config> {
        self.slot
    }

    /// An empty slot.
    pub fn new() -> (s: ConfigSlot)
        ensures
            s.content() is None,
    {
        ConfigSlot { slot: None }
    }

    /// Whether `init` has stored the settings.
    pub fn is_initialized(&self) -> (b: bool)
        ensures
            b == self.content() is Some,
    {
        self.slot.is_some()
    }
}

/// The settings that `init` stores.
pub open spec fn default_config() -> Config {
    Config { page_size: DEFAULT_PAGE_SIZE, on_test: true }
}

/// One page shows twenty rows.
pub proof fn lemma_twenty_rows_per_page()
    ensures
        default_config().page_size == 20,
{
}

/// Stores the default settings in `slot` unless it already holds some.
pub fn init(slot: &mut ConfigSlot)
    ensures
        old(slot).content() is None ==> final(slot).content() == Some(default_config()),
        old(slot).content() is Some ==> final(slot).content() == old(slot).content(),
{
    if slot.slot.is_none() {
        slot.slot = Some(Config { page_size: DEFAULT_PAGE_SIZE, on_test: true });
    }
}

/// The settings stored by `init`.
pub fn get_config(slot: &ConfigSlot) -> (c: &Config)
    requires
        slot.content() is Some,
    ensures
        *c == slot.content().unwrap(),
{
    slot.slot.as_ref().unwrap()
}

} // verus!
