use vstd::prelude::*;

use crate::error::{Error, ErrorKind};
use crate::name::{dotted_wf, join_dots, split_dots, QualifiedName};

verus! {

/// The names a scaffolded project derives from its fully qualified main
/// class: the package that replaces the template's, the template class's
/// fully qualified name inside that package, and the group and base name
/// written to the build configuration.
#[derive(Debug)]
pub struct ModNames {
    pub new_package: String,
    pub old_class: String,
    pub group: String,
    pub base_name: String,
}

/// Derive the scaffolding names from the fully qualified main class: the
/// new package is the class's enclosing package, the template class to
/// rename away is `ExampleMod` inside that package, the group is the
/// package's own enclosing scope, and the base name is the package's last
/// segment.  The main class must have at least three segments — group,
/// package and class — and be a well-formed dotted identifier; otherwise
/// a `MalformedName` error is returned.
pub fn plan_mod_names(main_class: &str) -> (r: Result<ModNames, Error>)
    ensures
        (dotted_wf(main_class@) && split_dots(main_class@).len() >= 3) ==> (r matches Ok(p) && {
            let parts = split_dots(main_class@);
            &&& p.new_package@ == join_dots(parts.drop_last())
            &&& p.old_class@ == join_dots(parts.drop_last()) + "."@ + "ExampleMod"@
            &&& p.group@ == join_dots(parts.drop_last().drop_last())
            &&& p.base_name@ == parts[parts.len() - 2]
        }),
        !(dotted_wf(main_class@) && split_dots(main_class@).len() >= 3) ==> (r matches Err(e)
            && e.kind == ErrorKind::MalformedName),
{
    let q = match QualifiedName::from_dotted(main_class) {
        Ok(q) => q,
        Err(e) => {
            return Err(e);
        },
    };
    if q.segments.len() < 3 {
        return Err(Error::new(
            ErrorKind::MalformedName,
            String::from_str("the main class needs a group, a package and a class segment"),
        ));
    }
    let pkg = match q.parent() {
        Ok(p) => p,
        Err(e) => {
            return Err(e);
        },
    };
    let grp = match pkg.parent() {
        Ok(p) => p,
        Err(e) => {
            return Err(e);
        },
    };
    let new_package = pkg.dotted();
    let mut old_class = new_package.clone();
    old_class.append(".");
    old_class.append("ExampleMod");
    let group = grp.dotted();
    let base_name = pkg.last();
    proof {
        let parts = split_dots(main_class@);
        assert(pkg@ == parts.drop_last());
        assert(grp@ == parts.drop_last().drop_last());
        assert(base_name@ == parts[parts.len() - 2]);
    }
    Ok(ModNames { new_package, old_class, group, base_name })
}

} // verus!
