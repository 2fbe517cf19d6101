//! The commands that replace the sections of an entity's text.
use vstd::prelude::*;

verus! {

/// A section of text: its value and its style (of type `St`).
pub struct TextSection<St> {
    pub value: String,
    pub style: St,
}

/// `style` is what `Option::unwrap_or_default` gives for `requested`: the
/// requested style, or the default style when none was requested.
pub open spec fn style_or_default<St: Default>(requested: Option<St>, style: St) -> bool {
    match requested {
        Some(s) => style == s,
        None => St::default.ensures((), style),
    }
}

/// The command that replaces all sections of an entity's text.
pub struct SetTextSections<St> {
    pub sections: Vec<TextSection<St>>,
}

impl<St> SetTextSections<St> {
    /// Replaces the sections of `text` (the sections of the entity's text,
    /// `None` when the entity has no text). Returns whether the entity had a
    /// text; when it has none, nothing changes.
    pub fn apply(self, text: &mut Option<Vec<TextSection<St>>>) -> (applied: bool)
        ensures
            applied == old(text).is_some(),
            applied ==> *final(text) == Some(self.sections),
            !applied ==> *final(text) == *old(text),
    {
        match text {
            Some(sections) => {
                *sections = self.sections;
                true
            },
            None => false,
        }
    }
}

/// The command that replaces the text of an entity by a single section.
pub struct SetText<St> {
    pub text: String,
    pub style: Option<St>,
}

impl<St: Default> SetText<St> {
    /// Replaces the sections of `text` by a single section holding the text
    /// and the requested style, or the default style when none was requested.
    /// Returns whether the entity had a text; when it has none, nothing
    /// changes.
    pub fn apply(self, text: &mut Option<Vec<TextSection<St>>>) -> (applied: bool)
        ensures
            applied == old(text).is_some(),
            applied ==> {
                &&& final(text).is_some()
                &&& final(text).unwrap()@.len() == 1
                &&& final(text).unwrap()@[0].value == self.text
                &&& style_or_default(self.style, final(text).unwrap()@[0].style)
            },
            !applied ==> *final(text) == *old(text),
    {
        let section = TextSection { value: self.text, style: self.style.unwrap_or_default() };
        let sections = vec![section];
        SetTextSections { sections }.apply(text)
    }
}

/// Replacing the sections of an entity's text, applied to the sections of the
/// entity's text (`None` when the entity has no text, and then nothing changes).
pub trait SetTextSectionsExt<St> {
    fn set_text_sections(&mut self, sections: Vec<TextSection<St>>) -> &mut Self;
}

impl<St> SetTextSectionsExt<St> for Option<Vec<TextSection<St>>> {
    fn set_text_sections(&mut self, sections: Vec<TextSection<St>>) -> (slot: &mut Self)
        ensures
            old(self).is_some() ==> *slot == Some(sections),
            old(self).is_none() ==> *slot == *old(self),
            *final(self) == *final(slot),
    {
        SetTextSections { sections }.apply(self);
        self
    }
}

/// Replacing an entity's text by a single section, applied to the sections of
/// the entity's text (`None` when the entity has no text, and then nothing
/// changes).
pub trait SetTextExt<St> {
    fn set_text(&mut self, text: String, style: Option<St>) -> &mut Self;
}

impl<St: Default> SetTextExt<St> for Option<Vec<TextSection<St>>> {
    fn set_text(&mut self, text: String, style: Option<St>) -> (slot: &mut Self)
        ensures
            old(self).is_some() ==> {
                &&& slot.is_some()
                &&& slot.unwrap()@.len() == 1
                &&& slot.unwrap()@[0].value == text
                &&& style_or_default(style, slot.unwrap()@[0].style)
            },
            old(self).is_none() ==> *slot == *old(self),
            *final(self) == *final(slot),
    {
        SetText { text, style }.apply(self);
        self
    }
}

} // verus!
