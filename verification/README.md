# niphas

Nix-native workloads on Kubernetes: pods run Nix closures fetched from a binary
cache instead of container images. This crate holds the logic of the platform,
verified with Verus; the programs around it live in `app/`.

## Layout

- `src/` — the verified library.
  - `hash`, `store_path`, `nar`, `narinfo`, `signature`: the Nix formats
    (nix-base32, store paths, NAR archives, `.narinfo` files, Ed25519
    signatures), each parser with a contract that says exactly what it accepts
    and what it returns, and laws such as "a hash's text parses back to the
    hash" and "an archive's bytes determine its tree".
  - `closure`, `closure_order`, `cache_client`: closure resolution over a
    binary cache (the result holds exactly the paths reachable from the root,
    none twice, topologically sorted with the root first) and the requests and
    errors of the cache client.
  - `csi`, `extract`, `mount`: what the CSI node does with a volume: the
    publish decision, the checks on downloaded files (signature, file hash, NAR
    hash), the filesystem steps that extract a NAR.
  - `eval`, `allowlist`, `evaluator`, `app_error`: validation of evaluation
    requests, the flake allowlist and the eval webhook's answers.
  - `crd`, `resources`, `reconciler`, `eval_client`, `operator_error`, `health`:
    the operator: the reconcile decision and the steps between its actions,
    status conditions and patches, the child manifests of a workload (each with
    the kind it is applied as), and the health probes' answers.
  - `config`, `error`, `json`, `text`: configuration, errors and helpers.
- `tests/` — tests of the library.
- `app/` — the programs: the eval webhook, the operator and the CSI node, with
  their HTTP, Kubernetes, filesystem and mount calls.
