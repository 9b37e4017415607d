use vstd::prelude::*;

verus! {

/// A label element of a view description.
pub struct Label {
    pub text: String,
    pub colour: String,
}

impl Default for Label {
    /// A label with no text, in white.
    fn default() -> (label: Self)
        ensures
            label.text@ == Seq::<char>::empty(),
            label.colour@ == "white"@,
    {
        Label { text: String::new(), colour: "white".to_owned() }
    }
}

/// An element of a view description that is named after a component.
pub struct Custom {
    pub name: String,
    pub text: String,
    pub colour: String,
}

impl Custom {
    /// An element named `name` with no text, in white.
    pub fn new(name: String) -> (custom: Self)
        ensures
            custom.name == name,
            custom.text@ == Seq::<char>::empty(),
            custom.colour@ == "white"@,
    {
        Custom { name, text: String::new(), colour: "white".to_owned() }
    }
}

/// An element of a view description.
pub enum Component {
    Label(Label),
    Custom(Custom),
}

impl Component {
    /// The element with the name `name`: a label where the name is `Label`,
    /// and otherwise an element named after a component. A text or a colour
    /// that is not given is the default one.
    pub fn element(name: String, text: Option<String>, colour: Option<String>) -> (element: Self)
        ensures
            (match element {
                Component::Label(label) => {
                    &&& name@ == "Label"@
                    &&& label.text@ == given_or(text, Seq::empty())
                    &&& label.colour@ == given_or(colour, "white"@)
                },
                Component::Custom(custom) => {
                    &&& name@ != "Label"@
                    &&& custom.name == name
                    &&& custom.text@ == given_or(text, Seq::empty())
                    &&& custom.colour@ == given_or(colour, "white"@)
                },
            }),
    {
        if name == "Label".to_owned() {
            let mut label = Label::default();
            match text {
                Some(text) => {
                    label.text = text;
                },
                None => {},
            }
            match colour {
                Some(colour) => {
                    label.colour = colour;
                },
                None => {},
            }
            Component::Label(label)
        } else {
            let mut custom = Custom::new(name);
            match text {
                Some(text) => {
                    custom.text = text;
                },
                None => {},
            }
            match colour {
                Some(colour) => {
                    custom.colour = colour;
                },
                None => {},
            }
            Component::Custom(custom)
        }
    }
}

/// The characters of a text that was given, and `otherwise` where none was.
pub open spec fn given_or(text: Option<String>, otherwise: Seq<char>) -> Seq<char> {
    match text {
        Some(text) => text@,
        None => otherwise,
    }
}

} // verus!
