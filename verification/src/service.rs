//! The vector gRPC service: what it serves with, and the handle of the server that runs.
use vstd::prelude::*;

verus! {

/// A gRPC service for vector events. It holds what a server is made of, and the handle of the
/// server while one runs. What these things are is left open.
pub struct VectorGrpcService<Addr, Coord, Dbms, Tls, Metrics, Handle> {
    pub addr: Addr,
    pub coord: Coord,
    pub dbms: Dbms,
    pub tls_config: Option<Tls>,
    pub metrics_register: Metrics,
    pub auto_generate_span: bool,
    pub handle: Option<Handle>,
}

impl<Addr, Coord, Dbms, Tls, Metrics, Handle> VectorGrpcService<
    Addr,
    Coord,
    Dbms,
    Tls,
    Metrics,
    Handle,
> {
    /// The same service with another handle, or none.
    pub open spec fn with_handle(self, handle: Option<Handle>) -> Self {
        VectorGrpcService { handle, ..self }
    }

    /// A service whose server does not run.
    pub fn new(
        coord: Coord,
        dbms: Dbms,
        addr: Addr,
        tls_config: Option<Tls>,
        metrics_register: Metrics,
        auto_generate_span: bool,
    ) -> (service: Self)
        ensures
            service.coord == coord,
            service.dbms == dbms,
            service.addr == addr,
            service.tls_config == tls_config,
            service.metrics_register == metrics_register,
            service.auto_generate_span == auto_generate_span,
            service.handle is None,
    {
        VectorGrpcService {
            addr,
            coord,
            dbms,
            tls_config,
            metrics_register,
            auto_generate_span,
            handle: None,
        }
    }

    /// Keeps the handle of a server that was started. A handle that was there before is dropped.
    pub fn start(&mut self, handle: Handle)
        ensures
            *final(self) == old(self).with_handle(Some(handle)),
    {
        self.handle = Some(handle);
    }

    /// Gives up the handle of the server, if one runs: the caller shuts that server down.
    pub fn stop(&mut self) -> (handle: Option<Handle>)
        ensures
            handle == old(self).handle,
            *final(self) == old(self).with_handle(None),
    {
        self.handle.take()
    }

    /// Stopping gives back the handle that starting put in, whatever was there before, and leaves
    /// all else as it was; stopping once more gives back nothing.
    pub proof fn law_stop_undoes_start(self, handle: Handle)
        ensures
            self.with_handle(Some(handle)).handle == Some(handle),
            self.with_handle(Some(handle)).with_handle(None) == self.with_handle(None),
            self.with_handle(None).handle is None,
            self.with_handle(None).with_handle(None) == self.with_handle(None),
            forall|h: Option<Handle>|
                {
                    let other = #[trigger] self.with_handle(h);
                    &&& other.addr == self.addr
                    &&& other.coord == self.coord
                    &&& other.dbms == self.dbms
                    &&& other.tls_config == self.tls_config
                    &&& other.metrics_register == self.metrics_register
                    &&& other.auto_generate_span == self.auto_generate_span
                    &&& other.handle == h
                },
    {
    }
}

} // verus!
