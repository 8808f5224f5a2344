use structure::error::{Fault, LocatedError, StructureError};
use structure::ids::BlockRef;

#[test]
fn detail_names_the_block() {
    let error = StructureError::invalid(Fault::OrderMissingBlock(BlockRef(7)));
    assert_eq!(error.detail(), "CFG block order references missing #7");
}

#[test]
fn context_goes_in_front() {
    let error = LocatedError::here(StructureError::invalid(Fault::NoBlocks));
    let error = error.context(2).context(10);
    assert_eq!(error.path, vec![10, 2]);
    assert_eq!(error.detail(), "child proto #10: child proto #2: CFG has no blocks");
}
