use vstd::prelude::*;

verus! {

/// What a node of the parse tree stands for.
#[derive(Debug)]
pub enum TreeVariant {
    Start,
    Name(String),
    StructDef,
    TArgsDef,
    TArgs,
    PropsDef,
    Prop,
    EnumDef,
    VariantsDef,
    Variant,
    PType,
    PTArgsBlock,
    PTArgs,
}

/// A node's kind with its word as a sequence of characters.
pub enum TreeVariantView {
    Start,
    Name(Seq<char>),
    StructDef,
    TArgsDef,
    TArgs,
    PropsDef,
    Prop,
    EnumDef,
    VariantsDef,
    Variant,
    PType,
    PTArgsBlock,
    PTArgs,
}

impl View for TreeVariant {
    type V = TreeVariantView;

    open spec fn view(&self) -> TreeVariantView {
        match self {
            TreeVariant::Start => TreeVariantView::Start,
            TreeVariant::Name(w) => TreeVariantView::Name(w@),
            TreeVariant::StructDef => TreeVariantView::StructDef,
            TreeVariant::TArgsDef => TreeVariantView::TArgsDef,
            TreeVariant::TArgs => TreeVariantView::TArgs,
            TreeVariant::PropsDef => TreeVariantView::PropsDef,
            TreeVariant::Prop => TreeVariantView::Prop,
            TreeVariant::EnumDef => TreeVariantView::EnumDef,
            TreeVariant::VariantsDef => TreeVariantView::VariantsDef,
            TreeVariant::Variant => TreeVariantView::Variant,
            TreeVariant::PType => TreeVariantView::PType,
            TreeVariant::PTArgsBlock => TreeVariantView::PTArgsBlock,
            TreeVariant::PTArgs => TreeVariantView::PTArgs,
        }
    }
}

} // verus!
