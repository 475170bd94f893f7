//! The `tensorflow.Example` and `tensorflow.SequenceExample` messages in which
//! training data is stored.
//!
//! The nested `Features` and `FeatureLists` messages are held as their
//! protobuf encoding; each message field follows proto3 presence: it may be
//! unset, and reading an unset field gives the empty message.

use vstd::prelude::*;

verus! {

/// A `tensorflow.Features` message, held as its protobuf encoding.
#[derive(Debug)]
pub struct Features {
    pub bytes: Vec<u8>,
}

/// A `tensorflow.FeatureLists` message, held as its protobuf encoding.
#[derive(Debug)]
pub struct FeatureLists {
    pub bytes: Vec<u8>,
}

/// A copy of a byte list.
fn copy_bytes(v: &Vec<u8>) -> (r: Vec<u8>)
    ensures
        r@ == v@,
{
    let mut r: Vec<u8> = Vec::new();
    let mut i: usize = 0;
    while i < v.len()
        invariant
            i <= v@.len(),
            r@ == v@.take(i as int),
        decreases v@.len() - i,
    {
        r.push(v[i]);
        i = i + 1;
        assert(r@ =~= v@.take(i as int));
    }
    assert(v@.take(i as int) =~= v@);
    r
}

impl Features {
    /// The empty message.
    pub fn new() -> (f: Features)
        ensures
            f.bytes@ == Seq::<u8>::empty(),
    {
        Features { bytes: Vec::new() }
    }

    /// A copy of the message.
    pub fn copy(&self) -> (f: Features)
        ensures
            f.bytes@ == self.bytes@,
    {
        Features { bytes: copy_bytes(&self.bytes) }
    }
}

impl FeatureLists {
    /// The empty message.
    pub fn new() -> (f: FeatureLists)
        ensures
            f.bytes@ == Seq::<u8>::empty(),
    {
        FeatureLists { bytes: Vec::new() }
    }

    /// A copy of the message.
    pub fn copy(&self) -> (f: FeatureLists)
        ensures
            f.bytes@ == self.bytes@,
    {
        FeatureLists { bytes: copy_bytes(&self.bytes) }
    }
}

/// The encoding of a `Features` field, if it is set.
pub open spec fn features_view(o: Option<Features>) -> Option<Seq<u8>> {
    match o {
        Some(f) => Some(f.bytes@),
        None => None,
    }
}

/// The encoding of a `FeatureLists` field, if it is set.
pub open spec fn feature_lists_view(o: Option<FeatureLists>) -> Option<Seq<u8>> {
    match o {
        Some(f) => Some(f.bytes@),
        None => None,
    }
}

/// What reading a field gives: its encoding, or the empty message when unset.
pub open spec fn read_field(o: Option<Seq<u8>>) -> Seq<u8> {
    match o {
        Some(b) => b,
        None => Seq::empty(),
    }
}

/// One training example: a set of named features.
#[derive(Debug)]
pub struct Example {
    pub features: Option<Features>,
}

impl Example {
    /// An example with no field set.
    pub fn new() -> (e: Example)
        ensures
            e.features is None,
    {
        Example { features: None }
    }

    /// Unsets the features.
    pub fn clear_features(&mut self)
        ensures
            final(self).features is None,
    {
        self.features = None;
    }

    /// Whether the features are set.
    pub fn has_features(&self) -> (r: bool)
        ensures
            r == self.features is Some,
    {
        self.features.is_some()
    }

    /// Sets the features.
    pub fn set_features(&mut self, v: Features)
        ensures
            features_view(final(self).features) == Some(v.bytes@),
    {
        self.features = Some(v);
    }

    /// The features, set to the empty message first when unset.
    pub fn mut_features(&mut self) -> (r: &mut Features)
        ensures
            r.bytes@ == read_field(features_view(old(self).features)),
            features_view(final(self).features) == Some(final(r).bytes@),
    {
        if self.features.is_none() {
            self.features = Some(Features::new());
        }
        self.features.as_mut().unwrap()
    }

    /// Takes the features out, leaving them unset; the empty message when they
    /// were unset.
    pub fn take_features(&mut self) -> (r: Features)
        ensures
            r.bytes@ == read_field(features_view(old(self).features)),
            final(self).features is None,
    {
        match self.features.take() {
            Some(f) => f,
            None => Features::new(),
        }
    }

    /// The features, or the empty message when unset.
    pub fn get_features(&self) -> (r: Features)
        ensures
            r.bytes@ == read_field(features_view(self.features)),
    {
        match &self.features {
            Some(f) => f.copy(),
            None => Features::new(),
        }
    }
}

/// One training sequence: context features and named lists of features.
#[derive(Debug)]
pub struct SequenceExample {
    pub context: Option<Features>,
    pub feature_lists: Option<FeatureLists>,
}

impl SequenceExample {
    /// A sequence example with no field set.
    pub fn new() -> (e: SequenceExample)
        ensures
            e.context is None,
            e.feature_lists is None,
    {
        SequenceExample { context: None, feature_lists: None }
    }

    /// Unsets the context.
    pub fn clear_context(&mut self)
        ensures
            final(self).context is None,
            feature_lists_view(final(self).feature_lists) == feature_lists_view(old(self).feature_lists),
    {
        self.context = None;
    }

    /// Whether the context is set.
    pub fn has_context(&self) -> (r: bool)
        ensures
            r == self.context is Some,
    {
        self.context.is_some()
    }

    /// Sets the context.
    pub fn set_context(&mut self, v: Features)
        ensures
            features_view(final(self).context) == Some(v.bytes@),
            feature_lists_view(final(self).feature_lists) == feature_lists_view(old(self).feature_lists),
    {
        self.context = Some(v);
    }

    /// The context, set to the empty message first when unset.
    pub fn mut_context(&mut self) -> (r: &mut Features)
        ensures
            r.bytes@ == read_field(features_view(old(self).context)),
            features_view(final(self).context) == Some(final(r).bytes@),
            feature_lists_view(final(self).feature_lists) == feature_lists_view(old(self).feature_lists),
    {
        if self.context.is_none() {
            self.context = Some(Features::new());
        }
        self.context.as_mut().unwrap()
    }

    /// Takes the context out, leaving it unset; the empty message when it was
    /// unset.
    pub fn take_context(&mut self) -> (r: Features)
        ensures
            r.bytes@ == read_field(features_view(old(self).context)),
            final(self).context is None,
            feature_lists_view(final(self).feature_lists) == feature_lists_view(old(self).feature_lists),
    {
        match self.context.take() {
            Some(f) => f,
            None => Features::new(),
        }
    }

    /// The context, or the empty message when unset.
    pub fn get_context(&self) -> (r: Features)
        ensures
            r.bytes@ == read_field(features_view(self.context)),
    {
        match &self.context {
            Some(f) => f.copy(),
            None => Features::new(),
        }
    }

    /// Unsets the feature lists.
    pub fn clear_feature_lists(&mut self)
        ensures
            final(self).feature_lists is None,
            features_view(final(self).context) == features_view(old(self).context),
    {
        self.feature_lists = None;
    }

    /// Whether the feature lists are set.
    pub fn has_feature_lists(&self) -> (r: bool)
        ensures
            r == self.feature_lists is Some,
    {
        self.feature_lists.is_some()
    }

    /// Sets the feature lists.
    pub fn set_feature_lists(&mut self, v: FeatureLists)
        ensures
            feature_lists_view(final(self).feature_lists) == Some(v.bytes@),
            features_view(final(self).context) == features_view(old(self).context),
    {
        self.feature_lists = Some(v);
    }

    /// The feature lists, set to the empty message first when unset.
    pub fn mut_feature_lists(&mut self) -> (r: &mut FeatureLists)
        ensures
            r.bytes@ == read_field(feature_lists_view(old(self).feature_lists)),
            feature_lists_view(final(self).feature_lists) == Some(final(r).bytes@),
            features_view(final(self).context) == features_view(old(self).context),
    {
        if self.feature_lists.is_none() {
            self.feature_lists = Some(FeatureLists::new());
        }
        self.feature_lists.as_mut().unwrap()
    }

    /// Takes the feature lists out, leaving them unset; the empty message when
    /// they were unset.
    pub fn take_feature_lists(&mut self) -> (r: FeatureLists)
        ensures
            r.bytes@ == read_field(feature_lists_view(old(self).feature_lists)),
            final(self).feature_lists is None,
            features_view(final(self).context) == features_view(old(self).context),
    {
        match self.feature_lists.take() {
            Some(f) => f,
            None => FeatureLists::new(),
        }
    }

    /// The feature lists, or the empty message when unset.
    pub fn get_feature_lists(&self) -> (r: FeatureLists)
        ensures
            r.bytes@ == read_field(feature_lists_view(self.feature_lists)),
    {
        match &self.feature_lists {
            Some(f) => f.copy(),
            None => FeatureLists::new(),
        }
    }
}

} // verus!
