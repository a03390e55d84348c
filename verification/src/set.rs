//! A thin aggregation of loaded packages queried by identifier: the first
//! package whose namespace matches and holds the resource wins.

use std::sync::Arc;
use vstd::prelude::*;

use crate::error::ArpError;
use crate::package::spec_resolve;
use crate::package::Package;
use crate::resource::ResourceDescriptor;
use crate::uid::ResourceIdentifier;

verus! {

/// Whether a package's own lookup of the identifier would succeed: the
/// namespace matches, and the path resolves to a resource node.
pub open spec fn find_would_succeed(p: Package, ns: Seq<char>, comps: Seq<Seq<char>>) -> bool {
    &&& ns == p.meta.namespace@
    &&& match spec_resolve(p.catalogue.nodes@, 0, comps, 0) {
        Some(ri) => p.catalogue.nodes@[ri] is Resource,
        None => false,
    }
}

/// Several loaded packages queried as one.
#[derive(Debug)]
pub struct PackageSet {
    /// The packages, in the order they are consulted.
    pub packages: Vec<Arc<Package>>,
}

impl PackageSet {
    /// Builds a set over the given packages.
    pub fn new(packages: Vec<Arc<Package>>) -> (r: PackageSet)
        ensures
            r.packages == packages,
    {
        PackageSet { packages }
    }

    /// The set's packages.
    pub fn get_packages(&self) -> (r: &Vec<Arc<Package>>)
        ensures
            r == &self.packages,
    {
        &self.packages
    }

    /// Adds one more package, consulted after all present ones.
    pub fn add_package(&mut self, package: Arc<Package>)
        ensures
            final(self).packages@ == old(self).packages@.push(package),
    {
        self.packages.push(package);
    }

    /// Takes the packages back out of the set.
    pub fn into_packages(self) -> (r: Vec<Arc<Package>>)
        ensures
            r == self.packages,
    {
        self.packages
    }

    /// Finds the resource in the first package whose namespace matches and
    /// whose lookup succeeds; fails exactly when no package has it.
    pub fn find_resource(&self, uid: &ResourceIdentifier) -> (r: Result<
        ResourceDescriptor,
        ArpError,
    >)
        requires
            uid.components@.len() >= 1,
        ensures
            match r {
                Ok(d) => exists|i: int|
                    {
                        &&& 0 <= i < self.packages@.len()
                        &&& #[trigger] find_would_succeed(
                            *self.packages@[i],
                            uid.namespace@,
                            uid.components.deep_view(),
                        )
                        &&& (forall|j: int|
                            0 <= j < i ==> !find_would_succeed(
                                *(#[trigger] self.packages@[j]),
                                uid.namespace@,
                                uid.components.deep_view(),
                            ))
                        &&& d.package == *self.packages@[i]
                    },
                Err(e) => e == ArpError::NotFoundInSet && forall|i: int|
                    0 <= i < self.packages@.len() ==> !find_would_succeed(
                        *(#[trigger] self.packages@[i]),
                        uid.namespace@,
                        uid.components.deep_view(),
                    ),
            },
    {
        let n = self.packages.len();
        let mut i: usize = 0;
        while i < n
            invariant
                i <= n,
                n == self.packages@.len(),
                uid.components@.len() >= 1,
                forall|j: int|
                    0 <= j < i ==> !find_would_succeed(
                        *(#[trigger] self.packages@[j]),
                        uid.namespace@,
                        uid.components.deep_view(),
                    ),
            decreases n - i,
        {
            let package = &self.packages[i];
            if !crate::uid::str_eq(package.get_namespace(), uid.namespace.as_str()) {
                i += 1;
                continue ;
            }
            match package.find_resource(uid) {
                Ok(desc) => {
                    proof {
                        assert(find_would_succeed(
                            *self.packages@[i as int],
                            uid.namespace@,
                            uid.components.deep_view(),
                        ));
                    }
                    return Ok(desc);
                },
                Err(_) => {},
            }
            i += 1;
        }
        Err(ArpError::NotFoundInSet)
    }
}

} // verus!
