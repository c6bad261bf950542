//! Multi-producer multi-consumer: the queue's writers share a lock, readers may run cleanup.
use vstd::prelude::*;
use std::marker::PhantomData;
use crate::event_queue::{CleanupMode, Settings as BaseSettings, settings_valid};

verus! {

/// Configuration of an mpmc queue.
pub trait Settings {
    const MIN_CHUNK_SIZE: u32 = 4;
    const MAX_CHUNK_SIZE: u32 = 4096;
    const CLEANUP: CleanupMode = CleanupMode::OnChunkRead;
}

pub struct DefaultSettings {}

impl Settings for DefaultSettings {}

/// `mpmc::Settings` as the queue's settings.
pub struct BS<S: Settings> {
    _phantom: PhantomData<S>,
}

impl<S: Settings> BaseSettings for BS<S> {
    const MIN_CHUNK_SIZE: u32 = S::MIN_CHUNK_SIZE;
    const MAX_CHUNK_SIZE: u32 = S::MAX_CHUNK_SIZE;
    const CLEANUP: CleanupMode = S::CLEANUP;
    const LOCK_ON_NEW_CHUNK_CLEANUP: bool = false;
    const CLEANUP_IN_UNSUBSCRIBE: bool = true;
}

/// The queue's settings for `S` are `S`'s chunk sizes and cleanup mode; the queue is valid with
/// them when the chunk sizes are positive and ordered.
pub proof fn lemma_settings<S: Settings>()
    ensures
        <BS<S> as BaseSettings>::MIN_CHUNK_SIZE == S::MIN_CHUNK_SIZE,
        <BS<S> as BaseSettings>::MAX_CHUNK_SIZE == S::MAX_CHUNK_SIZE,
        <BS<S> as BaseSettings>::CLEANUP == S::CLEANUP,
        <BS<S> as BaseSettings>::LOCK_ON_NEW_CHUNK_CLEANUP == false,
        <BS<S> as BaseSettings>::CLEANUP_IN_UNSUBSCRIBE == true,
        settings_valid::<BS<S>>() <==> (0 < S::MIN_CHUNK_SIZE <= S::MAX_CHUNK_SIZE),
{
}

/// The default settings: chunks of 4 to 4096 items, cleanup when a chunk is read.
pub proof fn lemma_default_settings()
    ensures
        DefaultSettings::MIN_CHUNK_SIZE == 4,
        DefaultSettings::MAX_CHUNK_SIZE == 4096,
        DefaultSettings::CLEANUP == CleanupMode::OnChunkRead,
        settings_valid::<BS<DefaultSettings>>(),
{
    lemma_settings::<DefaultSettings>();
}

pub type EventQueue<T, S = DefaultSettings> = crate::event_queue::EventQueue<T, BS<S>>;

pub type EventReader<T, S = DefaultSettings> = crate::event_queue::EventReader<T, BS<S>>;

pub type Iter<T, S = DefaultSettings> = crate::event_queue::Iter<T, BS<S>>;

} // verus!
